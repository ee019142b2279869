//! Reading back what was written: how the text form of a value parses.
use crate::env::{Bindings, Cache};
use crate::eval::{eval_args, eval_program, eval_term, head_of, resolve, Head, Step};
use crate::expr::Term;
use crate::parser::{
    all_nodes, alternatives, expr_body, form_shaped, head_rule, nested_rule, nodes, parsed,
    program_rule, Build,
};
use crate::parser_combinators::{
    outcome, prefix_len, run, run_all, CharClass, Datum, Mapper, Outcome, Rule,
};
use crate::parser_laws::{all_fail, lemma_any_fails, lemma_any_first_success};
use crate::render::{digits_of, lemma_digits_denote, rendered, rendered_items};
use vstd::prelude::*;

verus! {

/// Whether every character of `s` belongs to `class`.
pub open spec fn all_in(s: Seq<char>, class: CharClass) -> bool {
    forall|i: int| 0 <= i < s.len() ==> class.has(#[trigger] s[i])
}

/// Whether `s` does not begin with a character of `class`.
pub open spec fn stops(s: Seq<char>, class: CharClass) -> bool {
    s.len() == 0 || !class.has(s[0])
}

/// A run of characters of one class, followed by a text that does not begin
/// with one, is the longest prefix of that class.
pub proof fn lemma_prefix_of_concat(a: Seq<char>, b: Seq<char>, class: CharClass)
    requires
        all_in(a, class),
        stops(b, class),
    ensures
        prefix_len(a + b, class) == a.len(),
        (a + b).take(a.len() as int) == a,
        (a + b).skip(a.len() as int) == b,
    decreases a.len(),
{
    assert((a + b).take(a.len() as int) =~= a);
    assert((a + b).skip(a.len() as int) =~= b);
    if a.len() == 0 {
        assert(a + b =~= b);
    } else {
        assert((a + b)[0] == a[0]);
        assert((a + b).skip(1) =~= a.skip(1) + b);
        assert(all_in(a.skip(1), class)) by {
            assert forall|i: int| 0 <= i < a.skip(1).len() implies class.has(
                #[trigger] a.skip(1)[i],
            ) by {
                assert(a.skip(1)[i] == a[i + 1]);
            }
        }
        lemma_prefix_of_concat(a.skip(1), b, class);
    }
}

/// The integer matcher reads back the digits of a number, where the text
/// behind them does not begin with a digit.
pub proof fn lemma_int_reads_digits<M: Mapper>(
    n: nat,
    rest: Seq<char>,
    root: Option<Rule<M>>,
    fuel: nat,
)
    requires
        n <= i64::MAX,
        stops(rest, CharClass::Digit),
    ensures
        run(Rule::<M>::Int, root, fuel, digits_of(n) + rest) == Ok::<
            (Datum<<M::Out as View>::V>, Seq<char>),
            (Seq<char>, Seq<char>),
        >((Datum::Int(n as int), rest)),
{
    lemma_digits_denote(n);
    lemma_prefix_of_concat(digits_of(n), rest, CharClass::Digit);
}

/// The word matcher reads back a word, where the text behind it does not
/// begin with a character of the word alphabet.
pub proof fn lemma_word_reads_word<M: Mapper>(
    word: Seq<char>,
    rest: Seq<char>,
    root: Option<Rule<M>>,
    fuel: nat,
)
    requires
        word.len() > 0,
        all_in(word, CharClass::Word),
        stops(rest, CharClass::Word),
    ensures
        run(Rule::<M>::Word, root, fuel, word + rest) == Ok::<
            (Datum<<M::Out as View>::V>, Seq<char>),
            (Seq<char>, Seq<char>),
        >((Datum::Str(word), rest)),
{
    lemma_prefix_of_concat(word, rest, CharClass::Word);
}

/// The whitespace skip takes the whitespace at the start, where the text
/// behind it does not begin with whitespace.
pub proof fn lemma_spaces_reads_blank<M: Mapper>(
    blank: Seq<char>,
    rest: Seq<char>,
    root: Option<Rule<M>>,
    fuel: nat,
)
    requires
        all_in(blank, CharClass::Space),
        stops(rest, CharClass::Space),
    ensures
        run(Rule::<M>::Spaces, root, fuel, blank + rest) == Ok::<
            (Datum<<M::Out as View>::V>, Seq<char>),
            (Seq<char>, Seq<char>),
        >((Datum::Count(blank.len()), rest)),
{
    lemma_prefix_of_concat(blank, rest, CharClass::Space);
}

/// Whether `s` is a word: one or more characters of the word alphabet.
pub open spec fn is_word(s: Seq<char>) -> bool {
    s.len() > 0 && all_in(s, CharClass::Word)
}

/// Whether `head` can head a list that is read back: a word that is the name
/// of no special form and of no built-in operation.
pub open spec fn heads_data(head: Term) -> bool {
    head is Ident && is_word(head->Ident_0) && head_of(head->Ident_0) == Head::Other
}

/// The values that are read back as they were written: a natural number, a
/// string that is a word, a boolean, the unit value, an identifier that is a
/// word, begins with no digit and is the name of no constant, and a list of
/// such values behind a word that is the name of no special form and of no
/// built-in operation.
pub open spec fn reads_back(t: Term) -> bool
    decreases t,
{
    match t {
        Term::Int(n) => 0 <= n <= i64::MAX,
        Term::Str(s) => is_word(s),
        Term::Bool(_) => true,
        Term::Unit => true,
        Term::Ident(w) => is_word(w) && !CharClass::Digit.has(w[0]) && resolve(
            w,
            Map::empty(),
        ) == Term::Ident(w),
        Term::QuotedList(items) => items.len() > 0 && heads_data(items[0]) && forall|i: int|
            1 <= i < items.len() ==> reads_back(#[trigger] items[i]),
        _ => false,
    }
}

/// Whether every item is read back as it was written.
pub open spec fn all_read_back(items: Seq<Term>) -> bool {
    forall|i: int| 0 <= i < items.len() ==> reads_back(#[trigger] items[i])
}

/// The expression that the text form of `t` parses as: `t` itself, but a
/// boolean and the unit value as the identifier that names them, and a list
/// as the form of its first word with the other items as arguments.
pub open spec fn read(t: Term) -> Term
    decreases t,
{
    match t {
        Term::QuotedList(items) => if items.len() > 0 {
            Term::List(
                items[0]->Ident_0,
                Seq::new(
                    (items.len() - 1) as nat,
                    |i: int|
                        if 0 <= i < items.len() - 1 {
                            read(items[i + 1])
                        } else {
                            Term::Unit
                        },
                ),
            )
        } else {
            t
        },
        Term::Bool(_) => Term::Ident(rendered(t)),
        Term::Unit => Term::Ident(rendered(t)),
        _ => t,
    }
}

/// Whether `t` is written as a bare word or number, which ends where
/// whitespace or a bracket begins.
pub open spec fn is_bare(t: Term) -> bool {
    t is Int || t is Ident || t is Bool || t is Unit
}

/// The expressions that the text forms of the items parse as.
pub open spec fn read_each(items: Seq<Term>) -> Seq<Term> {
    Seq::new(items.len(), |i: int| read(items[i]))
}

/// The whitespace between the text of one item and what follows it: one
/// space before the closing bracket, two before another item.
pub open spec fn gap(rest: Seq<Term>) -> Seq<char> {
    if rest.len() == 0 {
        seq![' ']
    } else {
        seq![' ', ' ']
    }
}

/// The text of the items of a list from the first item on, up to and with the
/// closing bracket.
pub open spec fn items_text(args: Seq<Term>) -> Seq<char>
    decreases args.len(),
{
    if args.len() == 0 {
        seq![')']
    } else {
        rendered(args[0]) + (gap(args.skip(1)) + items_text(args.skip(1)))
    }
}

/// The text form of items begins with the text form of the first.
pub proof fn lemma_rendered_items_front(items: Seq<Term>)
    requires
        items.len() > 0,
    ensures
        rendered_items(items) == seq![' '] + rendered(items[0]) + seq![' '] + rendered_items(
            items.skip(1),
        ),
    decreases items.len(),
{
    let front = items.drop_last();
    if items.len() == 1 {
        assert(front =~= Seq::<Term>::empty());
        assert(items.skip(1) =~= Seq::<Term>::empty());
        assert(rendered_items(front) =~= Seq::<char>::empty());
        assert(rendered_items(items) =~= seq![' '] + rendered(items[0]) + seq![' ']
            + rendered_items(items.skip(1)));
    } else {
        lemma_rendered_items_front(front);
        assert(front[0] == items[0]);
        assert(items.skip(1).drop_last() =~= front.skip(1));
        assert(items.skip(1).last() == items.last());
        assert(rendered_items(items) =~= seq![' '] + rendered(items[0]) + seq![' ']
            + rendered_items(items.skip(1)));
    }
}

/// The text form of a value that is read back begins with a character that is
/// no whitespace; and with a digit, a double quote, an opening bracket or a
/// character of the word alphabet, by its kind.
pub proof fn lemma_first_char(t: Term)
    requires
        reads_back(t),
    ensures
        rendered(t).len() > 0,
        !CharClass::Space.has(rendered(t)[0]),
        t is Int ==> CharClass::Digit.has(rendered(t)[0]),
        t is Str ==> rendered(t)[0] == '"',
        t is Ident ==> rendered(t) == t->Ident_0,
        t is QuotedList ==> rendered(t)[0] == '(',
        t is Bool || t is Unit ==> is_word(rendered(t)) && !CharClass::Digit.has(rendered(t)[0]),
{
    match t {
        Term::Int(n) => {
            lemma_digits_denote(n as nat);
        },
        Term::Str(s) => {
            assert(rendered(t)[0] == '"');
        },
        Term::Ident(w) => {
            assert(CharClass::Word.has(w[0]));
        },
        Term::QuotedList(items) => {
            assert(rendered(t)[0] == '(');
        },
        _ => {},
    }
}

/// The rest of items that are read back are read back.
proof fn lemma_rest_read_back(args: Seq<Term>)
    requires
        args.len() > 0,
        all_read_back(args),
    ensures
        all_read_back(args.skip(1)),
        reads_back(args[0]),
{
    let rest = args.skip(1);
    assert forall|i: int| 0 <= i < rest.len() implies reads_back(#[trigger] rest[i]) by {
        assert(rest[i] == args[i + 1]);
    }
}

/// The text form of a list of values that are read back, with the closing
/// bracket behind it, is the text of its items behind the whitespace that
/// leads to them.
pub proof fn lemma_items_text(args: Seq<Term>)
    requires
        all_read_back(args),
    ensures
        rendered_items(args) + seq![')'] == if args.len() == 0 {
            items_text(args)
        } else {
            seq![' '] + items_text(args)
        },
        items_text(args).len() > 0,
        stops(items_text(args), CharClass::Space),
        args.len() > 0 ==> items_text(args).len() > rendered(args[0]).len(),
    decreases args.len(),
{
    if args.len() == 0 {
        assert(rendered_items(args) + seq![')'] =~= items_text(args));
    } else {
        let rest = args.skip(1);
        lemma_rest_read_back(args);
        lemma_items_text(rest);
        lemma_rendered_items_front(args);
        lemma_first_char(args[0]);
        let first = rendered(args[0]);
        let tail = rendered_items(rest) + seq![')'];
        assert(gap(rest) + items_text(rest) =~= seq![' '] + tail);
        assert(rendered_items(args) + seq![')'] =~= seq![' '] + first + (seq![' '] + tail));
        assert(seq![' '] + items_text(args) =~= seq![' '] + first + (seq![' '] + tail));
        assert(items_text(args)[0] == first[0]);
    }
}

/// The kinds of expression that are no form fail on a text that begins with
/// neither a digit, nor a quote, nor a character of the word alphabet.
pub proof fn lemma_atoms_fail(txt: Seq<char>, root: Option<Rule<Build>>, fuel: nat)
    requires
        stops(txt, CharClass::Digit),
        stops(txt, CharClass::Word),
        txt.len() == 0 || (txt[0] != '"' && txt[0] != '\''),
    ensures
        run(alternatives()[0], root, fuel, txt) is Err,
        run(alternatives()[1], root, fuel, txt) is Err,
        run(alternatives()[2], root, fuel, txt) is Err,
        run(alternatives()[3], root, fuel, txt) is Err,
{
    let alts = alternatives();
    assert(run(Rule::<Build>::Int, root, fuel, txt) is Err);
    assert(run(Rule::<Build>::Word, root, fuel, txt) is Err);
    assert(run(Rule::<Build>::Char('"'), root, fuel, txt) is Err);
    assert(run(Rule::<Build>::Char('\''), root, fuel, txt) is Err);
    let opened = Rule::Right(
        Box::new(Rule::Char('"')),
        Box::new(Rule::Mapped(Box::new(Rule::<Build>::Word), Build::Str)),
    );
    assert(run(opened, root, fuel, txt) is Err);
    let marked = Rule::Right(Box::new(Rule::<Build>::Char('\'')), Box::new(Rule::Word));
    assert(run(marked, root, fuel, txt) is Err);
}

/// The two kinds of form fail on a text that does not begin with an opening
/// bracket.
pub proof fn lemma_forms_fail(txt: Seq<char>, root: Option<Rule<Build>>, fuel: nat)
    requires
        txt.len() == 0 || txt[0] != '(',
    ensures
        run(alternatives()[4], root, fuel, txt) is Err,
        run(alternatives()[5], root, fuel, txt) is Err,
{
    let items = Rule::All(Box::new(nested_rule()));
    let pair = Rule::Both(Box::new(head_rule()), Box::new(items));
    assert(run(Rule::<Build>::Char('('), root, fuel, txt) is Err);
    assert(run(head_rule(), root, fuel, txt) is Err);
    assert(run(pair, root, fuel, txt) is Err);
    assert(run(Rule::Mapped(Box::new(pair), Build::Form), root, fuel, txt) is Err);
    assert(run(Rule::Mapped(Box::new(head_rule()), Build::Bare), root, fuel, txt) is Err);
}

/// No expression begins with a closing bracket, and none is found in an empty
/// text.
pub proof fn lemma_expr_fails(txt: Seq<char>, fuel: nat)
    requires
        txt.len() == 0 || txt[0] == ')',
    ensures
        run(expr_body(), Some(expr_body()), fuel, txt) is Err,
        run(nested_rule(), Some(expr_body()), fuel, txt) is Err,
        run(Rule::Refl(Box::new(expr_body())), None, fuel, txt) is Err,
{
    let root = Some(expr_body());
    lemma_fails_from(txt, fuel);
    if fuel > 0 {
        lemma_fails_from(txt, (fuel - 1) as nat);
    }
    let blank = Seq::<char>::empty();
    assert(blank + txt =~= txt);
    lemma_spaces_reads_blank::<Build>(blank, txt, root, fuel);
    let inner = Rule::Right(Box::new(Rule::<Build>::Spaces), Box::new(Rule::Recur));
    assert(run(Rule::<Build>::Recur, root, fuel, txt) is Err);
    assert(run(inner, root, fuel, txt) is Err);
}

/// No expression is found where the text is empty or begins with a closing
/// bracket.
proof fn lemma_fails_from(txt: Seq<char>, fuel: nat)
    requires
        txt.len() == 0 || txt[0] == ')',
    ensures
        run(expr_body(), Some(expr_body()), fuel, txt) is Err,
{
    let root = Some(expr_body());
    let alts = alternatives();
    let kinds = Rule::Any(alts);
    let padded = Rule::Left(Box::new(kinds), Box::new(Rule::Spaces));
    lemma_atoms_fail(txt, root, fuel);
    lemma_forms_fail(txt, root, fuel);
    lemma_any_fails(alts, root, fuel, txt);
    assert(all_fail(alts, alts.len() as int, root, fuel, txt));
    assert(run(kinds, root, fuel, txt) is Err);
    assert(run(padded, root, fuel, txt) is Err);
    let blank = Seq::<char>::empty();
    assert(blank + txt =~= txt);
    lemma_spaces_reads_blank::<Build>(blank, txt, root, fuel);
}


/// The items as values that the grammar built.
pub open spec fn as_nodes(args: Seq<Term>) -> Seq<Datum<Term>> {
    Seq::new(args.len(), |i: int| Datum::Node(args[i]))
}

/// The outcome that is the success with the value `t` built and `rest` left.
pub open spec fn built(t: Term, rest: Seq<char>) -> Outcome<Term> {
    Ok((Datum::Node(t), rest))
}

/// A natural number is read back by the first kind of expression.
proof fn lemma_int_atom(n: nat, tail: Seq<char>, root: Option<Rule<Build>>, fuel: nat)
    requires
        n <= i64::MAX,
        stops(tail, CharClass::Digit),
    ensures
        run(Rule::Any(alternatives()), root, fuel, digits_of(n) + tail) == built(
            Term::Int(n as int),
            tail,
        ),
{
    let alts = alternatives();
    let txt = digits_of(n) + tail;
    lemma_int_reads_digits::<Build>(n, tail, root, fuel);
    assert(run(alts[0], root, fuel, txt) == built(Term::Int(n as int), tail));
    assert(all_fail(alts, 0, root, fuel, txt));
    lemma_any_first_success(alts, root, fuel, txt, 0);
}

/// A string that is a word is read back by the second kind of expression.
proof fn lemma_str_atom(s: Seq<char>, tail: Seq<char>, root: Option<Rule<Build>>, fuel: nat)
    requires
        is_word(s),
    ensures
        run(Rule::Any(alternatives()), root, fuel, seq!['"'] + s + seq!['"'] + tail) == built(
            Term::Str(s),
            tail,
        ),
{
    let alts = alternatives();
    let txt = seq!['"'] + s + seq!['"'] + tail;
    let quote = Rule::<Build>::Char('"');
    let word = Rule::Mapped(Box::new(Rule::<Build>::Word), Build::Str);
    let opened = Rule::Right(Box::new(quote), Box::new(word));
    let after_quote = s + (seq!['"'] + tail);
    let after_word = seq!['"'] + tail;
    assert(txt[0] == '"');
    assert(txt.skip(1) =~= after_quote);
    assert(after_word[0] == '"');
    assert(after_word.skip(1) =~= tail);
    assert(run(Rule::<Build>::Int, root, fuel, txt) is Err);
    assert(run(alts[0], root, fuel, txt) is Err);
    lemma_word_reads_word::<Build>(s, after_word, root, fuel);
    assert(run(word, root, fuel, after_quote) == built(Term::Str(s), after_word));
    assert(run(quote, root, fuel, txt) == Ok::<
        (Datum<Term>, Seq<char>),
        (Seq<char>, Seq<char>),
    >((Datum::Char('"'), after_quote)));
    assert(run(opened, root, fuel, txt) == built(Term::Str(s), after_word));
    assert(run(quote, root, fuel, after_word) == Ok::<
        (Datum<Term>, Seq<char>),
        (Seq<char>, Seq<char>),
    >((Datum::Char('"'), tail)));
    assert(run(alts[1], root, fuel, txt) == built(Term::Str(s), tail));
    assert(all_fail(alts, 1, root, fuel, txt));
    lemma_any_first_success(alts, root, fuel, txt, 1);
}

/// An identifier that is a word and begins with no digit is read back by the
/// fourth kind of expression.
proof fn lemma_ident_atom(w: Seq<char>, tail: Seq<char>, root: Option<Rule<Build>>, fuel: nat)
    requires
        is_word(w),
        !CharClass::Digit.has(w[0]),
        stops(tail, CharClass::Word),
    ensures
        run(Rule::Any(alternatives()), root, fuel, w + tail) == built(Term::Ident(w), tail),
{
    let alts = alternatives();
    let txt = w + tail;
    assert(txt[0] == w[0]);
    assert(CharClass::Word.has(w[0]));
    assert(run(Rule::<Build>::Int, root, fuel, txt) is Err);
    assert(run(Rule::<Build>::Char('"'), root, fuel, txt) is Err);
    assert(run(Rule::<Build>::Char('\''), root, fuel, txt) is Err);
    let opened = Rule::Right(
        Box::new(Rule::Char('"')),
        Box::new(Rule::Mapped(Box::new(Rule::<Build>::Word), Build::Str)),
    );
    assert(run(opened, root, fuel, txt) is Err);
    let marked = Rule::Right(Box::new(Rule::<Build>::Char('\'')), Box::new(Rule::Word));
    assert(run(marked, root, fuel, txt) is Err);
    assert(run(alts[0], root, fuel, txt) is Err);
    assert(run(alts[1], root, fuel, txt) is Err);
    assert(run(alts[2], root, fuel, txt) is Err);
    lemma_word_reads_word::<Build>(w, tail, root, fuel);
    assert(run(alts[3], root, fuel, txt) == built(Term::Ident(w), tail));
    assert(all_fail(alts, 3, root, fuel, txt));
    lemma_any_first_success(alts, root, fuel, txt, 3);
}

/// Around what the kinds of expression read, an expression skips whitespace:
/// none before a text that begins with none, and the whitespace behind.
proof fn lemma_padding(
    t: Term,
    txt: Seq<char>,
    blank: Seq<char>,
    rest: Seq<char>,
    fuel: nat,
)
    requires
        stops(txt, CharClass::Space),
        all_in(blank, CharClass::Space),
        stops(rest, CharClass::Space),
        run(Rule::Any(alternatives()), Some(expr_body()), fuel, txt) == built(t, blank + rest),
    ensures
        run(expr_body(), Some(expr_body()), fuel, txt) == built(t, rest),
{
    let root = Some(expr_body());
    let kinds = Rule::Any(alternatives());
    let padded = Rule::Left(Box::new(kinds), Box::new(Rule::Spaces));
    let none = Seq::<char>::empty();
    assert(none + txt =~= txt);
    lemma_spaces_reads_blank::<Build>(none, txt, root, fuel);
    lemma_spaces_reads_blank::<Build>(blank, rest, root, fuel);
    assert(run(padded, root, fuel, txt) == built(t, rest));
}

/// The text form of a value that is read back parses as an expression: the
/// value itself, or the form that stands for a list. The whitespace behind it
/// is skipped.
pub proof fn lemma_expr_reads(t: Term, blank: Seq<char>, rest: Seq<char>, fuel: nat)
    requires
        reads_back(t),
        fuel >= rendered(t).len(),
        all_in(blank, CharClass::Space),
        stops(rest, CharClass::Space),
        is_bare(t) ==> blank.len() > 0,
    ensures
        run(expr_body(), Some(expr_body()), fuel, rendered(t) + (blank + rest)) == built(
            read(t),
            rest,
        ),
    decreases t, 0nat,
{
    let root = Some(expr_body());
    let txt = rendered(t) + (blank + rest);
    let tail = blank + rest;
    lemma_first_char(t);
    assert(txt[0] == rendered(t)[0]);
    if blank.len() > 0 {
        assert(tail[0] == blank[0]);
        assert(CharClass::Space.has(blank[0]));
    }
    match t {
        Term::Int(n) => {
            lemma_int_atom(n as nat, tail, root, fuel);
            lemma_padding(t, txt, blank, rest, fuel);
        },
        Term::Str(s) => {
            lemma_str_atom(s, tail, root, fuel);
            lemma_padding(t, txt, blank, rest, fuel);
        },
        Term::Ident(w) => {
            lemma_ident_atom(w, tail, root, fuel);
            lemma_padding(t, txt, blank, rest, fuel);
        },
        Term::Bool(_) => {
            lemma_ident_atom(rendered(t), tail, root, fuel);
            lemma_padding(read(t), txt, blank, rest, fuel);
        },
        Term::Unit => {
            lemma_ident_atom(rendered(t), tail, root, fuel);
            lemma_padding(read(t), txt, blank, rest, fuel);
        },
        Term::QuotedList(items) => {
            lemma_form_reads(items, tail, fuel);
            lemma_padding(read(t), txt, blank, rest, fuel);
        },
        _ => {},
    }
}

/// A nested expression whose text form is that of a value that is read back
/// parses as that value's expression.
proof fn lemma_nested_reads(t: Term, blank: Seq<char>, rest: Seq<char>, fuel: nat)
    requires
        reads_back(t),
        fuel > rendered(t).len(),
        blank.len() > 0,
        all_in(blank, CharClass::Space),
        stops(rest, CharClass::Space),
    ensures
        run(nested_rule(), Some(expr_body()), fuel, rendered(t) + (blank + rest)) == built(
            read(t),
            rest,
        ),
    decreases t, 1nat,
{
    let root = Some(expr_body());
    let txt = rendered(t) + (blank + rest);
    let none = Seq::<char>::empty();
    let inner = Rule::Right(Box::new(Rule::<Build>::Spaces), Box::new(Rule::Recur));
    lemma_first_char(t);
    assert(txt[0] == rendered(t)[0]);
    assert(none + txt =~= txt);
    assert(none + rest =~= rest);
    lemma_spaces_reads_blank::<Build>(none, txt, root, fuel);
    lemma_expr_reads(t, blank, rest, (fuel - 1) as nat);
    assert(run(Rule::<Build>::Recur, root, fuel, txt) == run(
        expr_body(),
        root,
        (fuel - 1) as nat,
        txt,
    ));
    assert(run(inner, root, fuel, txt) == built(read(t), rest));
    lemma_spaces_reads_blank::<Build>(none, rest, root, fuel);
}

/// The items of a list are read back, up to the closing bracket.
proof fn lemma_items_parse(args: Seq<Term>, tail: Seq<char>, fuel: nat)
    requires
        all_read_back(args),
        fuel > items_text(args).len(),
    ensures
        run_all(nested_rule(), Some(expr_body()), fuel, items_text(args) + tail) == (
            as_nodes(read_each(args)),
            seq![')'] + tail,
        ),
    decreases args, 0nat,
{
    let root = Some(expr_body());
    let txt = items_text(args) + tail;
    if args.len() == 0 {
        assert(txt[0] == ')');
        lemma_expr_fails(txt, fuel);
        assert(as_nodes(read_each(args)) =~= Seq::<Datum<Term>>::empty());
    } else {
        let rest = args.skip(1);
        let first = rendered(args[0]);
        let after = items_text(rest) + tail;
        lemma_rest_read_back(args);
        lemma_items_text(args);
        lemma_items_text(rest);
        assert(after[0] == items_text(rest)[0]);
        assert(txt =~= first + (gap(rest) + after));
        lemma_nested_reads(args[0], gap(rest), after, fuel);
        lemma_items_parse(rest, tail, fuel);
        assert(after.len() < txt.len());
        assert(as_nodes(read_each(args)) =~= seq![Datum::Node(read(args[0]))] + as_nodes(
            read_each(rest),
        )) by {
            assert forall|i: int| 0 <= i < args.len() implies as_nodes(read_each(args))[i] == (
                seq![Datum::Node(read(args[0]))] + as_nodes(read_each(rest)))[i] by {
                if i > 0 {
                    assert(rest[i - 1] == args[i]);
                }
            }
        }
    }
}

/// The text form of a list parses as the form of its first word, with the
/// expressions of the other items as arguments.
proof fn lemma_form_reads(items: Seq<Term>, tail: Seq<char>, fuel: nat)
    requires
        reads_back(Term::QuotedList(items)),
        fuel >= rendered(Term::QuotedList(items)).len(),
    ensures
        run(
            Rule::Any(alternatives()),
            Some(expr_body()),
            fuel,
            rendered(Term::QuotedList(items)) + tail,
        ) == built(read(Term::QuotedList(items)), tail),
    decreases items, 0nat,
{
    let root = Some(expr_body());
    let alts = alternatives();
    let list_items = Rule::All(Box::new(nested_rule()));
    let pair = Rule::Both(Box::new(head_rule()), Box::new(list_items));
    let form = Rule::Mapped(Box::new(pair), Build::Form);
    let bare = Rule::Mapped(Box::new(head_rule()), Build::Bare);
    let close = Rule::<Build>::Char(')');
    let head = items[0]->Ident_0;
    let args = items.skip(1);
    let whole = rendered(Term::QuotedList(items));
    let txt = whole + tail;
    let expected = built(read(Term::QuotedList(items)), tail);
    let read_args = read_each(args);
    assert(all_read_back(args)) by {
        assert forall|i: int| 0 <= i < args.len() implies reads_back(#[trigger] args[i]) by {
            assert(args[i] == items[i + 1]);
        }
    }
    assert(read(Term::QuotedList(items)) == Term::List(head, read_args)) by {
        assert(read(Term::QuotedList(items))->List_1 =~= read_args) by {
            assert forall|i: int| 0 <= i < args.len() implies read(
                Term::QuotedList(items),
            )->List_1[i] == read_args[i] by {
                assert(args[i] == items[i + 1]);
            }
        }
    }
    lemma_items_text(args);
    lemma_rendered_items_front(items);
    let closing = rendered_items(args) + seq![')'];
    assert(seq![' '] + closing =~= gap(args) + items_text(args));
    assert(whole =~= seq!['(', ' '] + head + (seq![' '] + closing));
    assert(txt =~= seq!['(', ' '] + head + (gap(args) + (items_text(args) + tail)));
    assert(txt[0] == '(');
    assert((items_text(args) + tail)[0] == items_text(args)[0]);
    lemma_atoms_fail(txt, root, fuel);
    lemma_head_parses(head, gap(args), items_text(args) + tail, root, fuel);
    assert(decreases_to!(items => args));
    lemma_items_parse(args, tail, fuel);
    let after_items = seq![')'] + tail;
    assert(after_items[0] == ')');
    assert(after_items.skip(1) =~= tail);
    assert(run(close, root, fuel, after_items) == Ok::<
        (Datum<Term>, Seq<char>),
        (Seq<char>, Seq<char>),
    >((Datum::Char(')'), tail)));
    if args.len() == 0 {
        assert(as_nodes(read_args).len() == 0);
        assert(items_text(args) + tail =~= after_items);
        assert(run(list_items, root, fuel, after_items) is Err);
        assert(run(pair, root, fuel, txt) is Err);
        assert(run(form, root, fuel, txt) is Err);
        assert(run(alts[4], root, fuel, txt) is Err);
        assert(read_args =~= Seq::<Term>::empty());
        assert(run(bare, root, fuel, txt) == built(Term::List(head, read_args), after_items));
        assert(run(alts[5], root, fuel, txt) == expected);
        assert(all_fail(alts, 5, root, fuel, txt));
        lemma_any_first_success(alts, root, fuel, txt, 5);
    } else {
        assert(as_nodes(read_args).len() > 0);
        assert(run(list_items, root, fuel, items_text(args) + tail) == Ok::<
            (Datum<Term>, Seq<char>),
            (Seq<char>, Seq<char>),
        >((Datum::Many(as_nodes(read_args)), after_items)));
        let paired = Datum::Pair(
            Box::new(Datum::<Term>::Str(head)),
            Box::new(Datum::Many(as_nodes(read_args))),
        );
        assert(run(pair, root, fuel, txt) == Ok::<
            (Datum<Term>, Seq<char>),
            (Seq<char>, Seq<char>),
        >((paired, after_items)));
        assert(all_nodes(as_nodes(read_args)));
        assert(form_shaped(paired));
        assert(nodes(as_nodes(read_args)) =~= read_args);
        assert(Build::Form.mapped(paired) == Datum::Node(Term::List(head, read_args)));
        assert(run(form, root, fuel, txt) == built(Term::List(head, read_args), after_items));
        assert(run(alts[4], root, fuel, txt) == expected);
        assert(all_fail(alts, 4, root, fuel, txt));
        lemma_any_first_success(alts, root, fuel, txt, 4);
    }
}

/// The head of a form is read back, with the whitespace on both sides of it.
proof fn lemma_head_parses(
    head: Seq<char>,
    blank: Seq<char>,
    rest: Seq<char>,
    root: Option<Rule<Build>>,
    fuel: nat,
)
    requires
        is_word(head),
        blank.len() > 0,
        all_in(blank, CharClass::Space),
        stops(rest, CharClass::Space),
    ensures
        run(head_rule(), root, fuel, seq!['(', ' '] + head + (blank + rest)) == Ok::<
            (Datum<Term>, Seq<char>),
            (Seq<char>, Seq<char>),
        >((Datum::Str(head), rest)),
{
    let txt = seq!['(', ' '] + head + (blank + rest);
    let word = Rule::<Build>::Word;
    let spaces = Rule::<Build>::Spaces;
    let padded = Rule::Left(Box::new(word), Box::new(spaces));
    let inner = Rule::Right(Box::new(spaces), Box::new(padded));
    let after_open = seq![' '] + (head + (blank + rest));
    let after_blank = head + (blank + rest);
    assert(txt.skip(1) =~= after_open);
    assert(txt[0] == '(');
    assert(CharClass::Word.has(head[0]));
    assert(after_blank[0] == head[0]);
    assert(CharClass::Space.has(blank[0]));
    assert((blank + rest)[0] == blank[0]);
    lemma_spaces_reads_blank::<Build>(seq![' '], after_blank, root, fuel);
    lemma_word_reads_word::<Build>(head, blank + rest, root, fuel);
    lemma_spaces_reads_blank::<Build>(blank, rest, root, fuel);
    assert(run(padded, root, fuel, after_blank) == Ok::<
        (Datum<Term>, Seq<char>),
        (Seq<char>, Seq<char>),
    >((Datum::Str(head), rest)));
    assert(run(inner, root, fuel, after_open) == Ok::<
        (Datum<Term>, Seq<char>),
        (Seq<char>, Seq<char>),
    >((Datum::Str(head), rest)));
    assert(run(Rule::<Build>::Char('('), root, fuel, txt) == Ok::<
        (Datum<Term>, Seq<char>),
        (Seq<char>, Seq<char>),
    >((Datum::Char('('), after_open)));
}

/// The text form of a list that is read back parses as one expression, the
/// form that stands for the list. No text is left.
pub proof fn lemma_list_reparses(t: Term)
    requires
        t is QuotedList,
        reads_back(t),
    ensures
        parsed(rendered(t)) == Ok::<(Seq<Term>, Seq<char>), (Seq<char>, Seq<char>)>(
            (seq![read(t)], Seq::empty()),
        ),
{
    let txt = rendered(t);
    let expr = Rule::Refl(Box::new(expr_body()));
    let none = Seq::<char>::empty();
    let node = Datum::Node(read(t));
    let fuel = txt.len();
    lemma_first_char(t);
    assert(none + none =~= none);
    assert(txt + (none + none) =~= txt);
    lemma_expr_reads(t, none, none, fuel);
    lemma_expr_fails(none, fuel);
    assert(run(expr, None, fuel, txt) == built(read(t), none));
    assert(run_all(expr, None, fuel, none) == (Seq::<Datum<Term>>::empty(), none));
    assert(run_all(expr, None, fuel, txt) == (seq![node] + Seq::<Datum<Term>>::empty(), none));
    assert(seq![node] + Seq::<Datum<Term>>::empty() =~= seq![node]);
    assert(outcome(program_rule(), txt) == Ok::<
        (Datum<Term>, Seq<char>),
        (Seq<char>, Seq<char>),
    >((Datum::Many(seq![node]), none)));
    assert(nodes(seq![node]) =~= seq![read(t)]);
}

/// The expression that a value is read back as evaluates to the value, where
/// nothing is bound; the environment and the cache stay as they are.
pub proof fn lemma_read_evaluates(t: Term, memo: Cache, depth: nat)
    requires
        reads_back(t),
    ensures
        eval_term(read(t), Map::empty(), memo, depth) == (Step::<Term> {
            result: Ok(t),
            env: Map::empty(),
            memo,
        }),
    decreases t, 0nat,
{
    match t {
        Term::QuotedList(items) => {
            let head = items[0]->Ident_0;
            let args = items.skip(1);
            assert(all_read_back(args)) by {
                assert forall|i: int| 0 <= i < args.len() implies reads_back(
                    #[trigger] args[i],
                ) by {
                    assert(args[i] == items[i + 1]);
                }
            }
            assert(read(t)->List_1 =~= read_each(args)) by {
                assert forall|i: int| 0 <= i < args.len() implies read(t)->List_1[i]
                    == read_each(args)[i] by {
                    assert(args[i] == items[i + 1]);
                }
            }
            assert(decreases_to!(items => args));
            lemma_read_each_evaluates(args, memo, depth);
            assert(seq![Term::Ident(head)] + args =~= items);
        },
        Term::Bool(b) => {
            lemma_constant_names();
        },
        Term::Unit => {
            lemma_constant_names();
        },
        _ => {},
    }
}

/// How the names of the constants are spelled.
proof fn lemma_constant_names()
    ensures
        "true"@ == seq!['t', 'r', 'u', 'e'],
        "#t"@ == seq!['#', 't'],
        "false"@ == seq!['f', 'a', 'l', 's', 'e'],
        "#f"@ == seq!['#', 'f'],
        "unit"@ == seq!['u', 'n', 'i', 't'],
{
    reveal_strlit("true");
    reveal_strlit("#t");
    reveal_strlit("false");
    reveal_strlit("#f");
    reveal_strlit("unit");
    assert("true"@ =~= seq!['t', 'r', 'u', 'e']);
    assert("#t"@ =~= seq!['#', 't']);
    assert("false"@ =~= seq!['f', 'a', 'l', 's', 'e']);
    assert("#f"@ =~= seq!['#', 'f']);
    assert("unit"@ =~= seq!['u', 'n', 'i', 't']);
}

/// The expressions that values are read back as evaluate to the values.
proof fn lemma_read_each_evaluates(args: Seq<Term>, memo: Cache, depth: nat)
    requires
        all_read_back(args),
    ensures
        eval_args(read_each(args), Map::empty(), memo, depth) == (Step::<Seq<Term>> {
            result: Ok(args),
            env: Map::empty(),
            memo,
        }),
    decreases args, 1nat,
{
    if args.len() == 0 {
        assert(args =~= Seq::<Term>::empty());
    } else {
        let rest = args.skip(1);
        lemma_rest_read_back(args);
        assert(read_each(args)[0] == read(args[0]));
        assert(read_each(args).skip(1) =~= read_each(rest));
        lemma_read_evaluates(args[0], memo, depth);
        lemma_read_each_evaluates(rest, memo, depth);
        assert(seq![args[0]] + rest =~= args);
    }
}

/// Reading back what was written: the text form of a list parses as one
/// expression with no text left, and that expression evaluates to the list,
/// where nothing is bound. This holds of the lists that `reads_back`
/// describes.
pub proof fn lemma_list_round_trip(t: Term, depth: nat)
    requires
        t is QuotedList,
        reads_back(t),
    ensures
        parsed(rendered(t)) is Ok,
        parsed(rendered(t))->Ok_0.1.len() == 0,
        eval_program(parsed(rendered(t))->Ok_0.0, Map::empty(), Map::empty(), depth).result
            == Ok::<Term, Seq<char>>(t),
{
    lemma_list_reparses(t);
    lemma_read_evaluates(t, Map::empty(), depth);
    assert(seq![read(t)].len() == 1);
}

} // verus!
