//! What holds of every parser, whatever it is made of.
use crate::parser_combinators::{
    lemma_prefix_in_class, prefix_len, run, run_all, run_any, starts_with, CharClass, Datum,
    Mapper, Outcome, Rule,
};
use vstd::prelude::*;

verus! {

/// Whether `rest` is what is left of `txt` after some of its first characters
/// were taken away.
pub open spec fn is_suffix(rest: Seq<char>, txt: Seq<char>) -> bool {
    rest.len() <= txt.len() && rest == txt.skip(txt.len() - rest.len())
}

/// Whether the input that the outcome holds, the rest of a success or the
/// place of a failure, is a suffix of `txt`.
pub open spec fn within<V>(o: Outcome<V>, txt: Seq<char>) -> bool {
    match o {
        Ok((_, rest)) => is_suffix(rest, txt),
        Err((_, at)) => is_suffix(at, txt),
    }
}

/// Every text is a suffix of itself, and so is what is left of it after a
/// number of characters.
pub proof fn lemma_suffix_skip(txt: Seq<char>, n: int)
    requires
        0 <= n <= txt.len(),
    ensures
        is_suffix(txt.skip(n), txt),
        is_suffix(txt, txt),
{
    assert(txt.skip(0) =~= txt);
}

/// A suffix of a suffix is a suffix.
pub proof fn lemma_suffix_trans(a: Seq<char>, b: Seq<char>, c: Seq<char>)
    requires
        is_suffix(a, b),
        is_suffix(b, c),
    ensures
        is_suffix(a, c),
{
    assert(a =~= c.skip(c.len() - a.len()));
}

/// A parser never hands back input that it was not given: what is left after
/// a success, and the place of a failure, are suffixes of the input.
pub proof fn lemma_run_within<M: Mapper>(
    r: Rule<M>,
    root: Option<Rule<M>>,
    fuel: nat,
    txt: Seq<char>,
)
    ensures
        within(run(r, root, fuel, txt), txt),
    decreases fuel, r, 0nat,
{
    lemma_suffix_skip(txt, 0);
    match r {
        Rule::Char(c) => {
            if txt.len() > 0 {
                lemma_suffix_skip(txt, 1);
            }
        },
        Rule::Str(s) => {
            if starts_with(txt, s) {
                lemma_suffix_skip(txt, s.len() as int);
            }
        },
        Rule::Int => {
            lemma_prefix_in_class(txt, CharClass::Digit);
            lemma_suffix_skip(txt, prefix_len(txt, CharClass::Digit) as int);
        },
        Rule::Word => {
            lemma_prefix_in_class(txt, CharClass::Word);
            lemma_suffix_skip(txt, prefix_len(txt, CharClass::Word) as int);
        },
        Rule::Spaces => {
            lemma_prefix_in_class(txt, CharClass::Space);
            lemma_suffix_skip(txt, prefix_len(txt, CharClass::Space) as int);
        },
        Rule::Both(a, b) => {
            lemma_sequence_within(*a, *b, root, fuel, txt);
            lemma_run_within(*a, root, fuel, txt);
            if let Ok((_, rest)) = run(*a, root, fuel, txt) {
                lemma_run_within(*b, root, fuel, rest);
            }
        },
        Rule::Left(a, b) => {
            lemma_sequence_within(*a, *b, root, fuel, txt);
            lemma_run_within(*a, root, fuel, txt);
            if let Ok((_, rest)) = run(*a, root, fuel, txt) {
                lemma_run_within(*b, root, fuel, rest);
            }
        },
        Rule::Right(a, b) => {
            lemma_sequence_within(*a, *b, root, fuel, txt);
            lemma_run_within(*a, root, fuel, txt);
            if let Ok((_, rest)) = run(*a, root, fuel, txt) {
                lemma_run_within(*b, root, fuel, rest);
            }
        },
        Rule::Mapped(a, _) => {
            lemma_run_within(*a, root, fuel, txt);
        },
        Rule::All(a) => {
            lemma_all_within(*a, root, fuel, txt);
        },
        Rule::Any(ps) => {
            lemma_any_within(ps, root, fuel, txt);
        },
        Rule::Refl(body) => {
            lemma_run_within(*body, Some(*body), fuel, txt);
        },
        Rule::Recur => {
            if let Some(body) = root {
                if fuel > 0 {
                    lemma_run_within(body, root, (fuel - 1) as nat, txt);
                }
            }
        },
    }
}

/// Where two outcomes in a row stay within their inputs, the second stays
/// within the input of the first.
proof fn lemma_sequence_within<M: Mapper>(
    a: Rule<M>,
    b: Rule<M>,
    root: Option<Rule<M>>,
    fuel: nat,
    txt: Seq<char>,
)
    ensures
        run(a, root, fuel, txt) matches Ok((_, rest)) ==> (is_suffix(rest, txt) && within(
            run(b, root, fuel, rest),
            rest,
        ) ==> within(run(b, root, fuel, rest), txt)),
{
    if let Ok((_, rest)) = run(a, root, fuel, txt) {
        if is_suffix(rest, txt) && within(run(b, root, fuel, rest), rest) {
            match run(b, root, fuel, rest) {
                Ok((_, end)) => lemma_suffix_trans(end, rest, txt),
                Err((_, at)) => lemma_suffix_trans(at, rest, txt),
            }
        }
    }
}

/// What a repetition leaves is a suffix of its input.
pub proof fn lemma_all_within<M: Mapper>(
    r: Rule<M>,
    root: Option<Rule<M>>,
    fuel: nat,
    txt: Seq<char>,
)
    ensures
        is_suffix(run_all(r, root, fuel, txt).1, txt),
    decreases fuel, r, txt.len() + 1,
{
    lemma_suffix_skip(txt, 0);
    lemma_run_within(r, root, fuel, txt);
    if let Ok((_, rest)) = run(r, root, fuel, txt) {
        if rest.len() < txt.len() {
            lemma_all_within(r, root, fuel, rest);
            lemma_suffix_trans(run_all(r, root, fuel, rest).1, rest, txt);
        }
    }
}

/// An alternation stays within its input.
pub proof fn lemma_any_within<M: Mapper>(
    ps: Seq<Rule<M>>,
    root: Option<Rule<M>>,
    fuel: nat,
    txt: Seq<char>,
)
    ensures
        within(run_any(ps, root, fuel, txt), txt),
    decreases fuel, ps, 0nat,
{
    lemma_suffix_skip(txt, 0);
    if ps.len() > 0 {
        lemma_run_within(ps[0], root, fuel, txt);
        lemma_any_within(ps.skip(1), root, fuel, txt);
    }
}

/// Whether every one of the first `n` parsers of `ps` fails on `txt`.
pub open spec fn all_fail<M: Mapper>(
    ps: Seq<Rule<M>>,
    n: int,
    root: Option<Rule<M>>,
    fuel: nat,
    txt: Seq<char>,
) -> bool {
    forall|j: int| 0 <= j < n && j < ps.len() ==> (#[trigger] run(ps[j], root, fuel, txt)) is Err
}

/// Alternation backtracks in full: it gives what the first alternative that
/// succeeds on the input gives on that same input; the alternatives before it
/// failed on it, and took nothing of it away.
pub proof fn lemma_any_first_success<M: Mapper>(
    ps: Seq<Rule<M>>,
    root: Option<Rule<M>>,
    fuel: nat,
    txt: Seq<char>,
    i: int,
)
    requires
        0 <= i < ps.len(),
        run(ps[i], root, fuel, txt) is Ok,
        all_fail(ps, i, root, fuel, txt),
    ensures
        run(Rule::Any(ps), root, fuel, txt) == run(ps[i], root, fuel, txt),
    decreases i,
{
    assert(run(Rule::Any(ps), root, fuel, txt) == run_any(ps, root, fuel, txt));
    if i > 0 {
        let tail = ps.skip(1);
        assert(run(ps[0], root, fuel, txt) is Err);
        assert(all_fail(tail, i - 1, root, fuel, txt)) by {
            assert forall|j: int| 0 <= j < i - 1 && j < tail.len() implies (#[trigger] run(
                tail[j],
                root,
                fuel,
                txt,
            )) is Err by {
                assert(tail[j] == ps[j + 1]);
                assert(run(ps[j + 1], root, fuel, txt) is Err);
            }
        }
        assert(tail[i - 1] == ps[i]);
        lemma_any_first_success(tail, root, fuel, txt, i - 1);
        assert(run(Rule::Any(tail), root, fuel, txt) == run_any(tail, root, fuel, txt));
    }
}

/// Alternation fails only where every alternative fails on the input, and
/// then it fails at the start of that input.
pub proof fn lemma_any_fails<M: Mapper>(
    ps: Seq<Rule<M>>,
    root: Option<Rule<M>>,
    fuel: nat,
    txt: Seq<char>,
)
    ensures
        run(Rule::Any(ps), root, fuel, txt) is Err <==> all_fail(
            ps,
            ps.len() as int,
            root,
            fuel,
            txt,
        ),
        run(Rule::Any(ps), root, fuel, txt) is Err ==> run(Rule::Any(ps), root, fuel, txt)
            == Err::<(Datum<<M::Out as View>::V>, Seq<char>), (Seq<char>, Seq<char>)>(
            ("any: no matches"@, txt),
        ),
    decreases ps.len(),
{
    assert(run(Rule::Any(ps), root, fuel, txt) == run_any(ps, root, fuel, txt));
    if ps.len() > 0 {
        let tail = ps.skip(1);
        lemma_any_fails(tail, root, fuel, txt);
        assert(run(Rule::Any(tail), root, fuel, txt) == run_any(tail, root, fuel, txt));
        if run(ps[0], root, fuel, txt) is Err {
            if all_fail(tail, tail.len() as int, root, fuel, txt) {
                assert forall|j: int| 0 <= j < ps.len() implies (#[trigger] run(
                    ps[j],
                    root,
                    fuel,
                    txt,
                )) is Err by {
                    if j > 0 {
                        assert(tail[j - 1] == ps[j]);
                        assert(run(tail[j - 1], root, fuel, txt) is Err);
                    }
                }
            }
            if all_fail(ps, ps.len() as int, root, fuel, txt) {
                assert forall|j: int| 0 <= j < tail.len() implies (#[trigger] run(
                    tail[j],
                    root,
                    fuel,
                    txt,
                )) is Err by {
                    assert(tail[j] == ps[j + 1]);
                    assert(run(ps[j + 1], root, fuel, txt) is Err);
                }
            }
        } else {
            assert(!all_fail(ps, ps.len() as int, root, fuel, txt));
        }
    }
}

/// Whether the rule refers to itself nowhere: it holds neither `Refl` nor
/// `Recur`.
pub open spec fn plain<M>(r: Rule<M>) -> bool
    decreases r,
{
    match r {
        Rule::Both(a, b) => plain(*a) && plain(*b),
        Rule::Left(a, b) => plain(*a) && plain(*b),
        Rule::Right(a, b) => plain(*a) && plain(*b),
        Rule::Mapped(a, _) => plain(*a),
        Rule::All(a) => plain(*a),
        Rule::Any(ps) => forall|i: int| 0 <= i < ps.len() ==> plain(#[trigger] ps[i]),
        Rule::Refl(_) => false,
        Rule::Recur => false,
        _ => true,
    }
}

/// A parser that refers to itself nowhere uses no fuel and no root: what it
/// makes of an input depends on neither.
pub proof fn lemma_plain_steady<M: Mapper>(
    r: Rule<M>,
    root1: Option<Rule<M>>,
    fuel1: nat,
    root2: Option<Rule<M>>,
    fuel2: nat,
    txt: Seq<char>,
)
    requires
        plain(r),
    ensures
        run(r, root1, fuel1, txt) == run(r, root2, fuel2, txt),
    decreases r, 0nat,
{
    match r {
        Rule::Both(a, b) => {
            lemma_plain_steady(*a, root1, fuel1, root2, fuel2, txt);
            if let Ok((_, rest)) = run(*a, root1, fuel1, txt) {
                lemma_plain_steady(*b, root1, fuel1, root2, fuel2, rest);
            }
        },
        Rule::Left(a, b) => {
            lemma_plain_steady(*a, root1, fuel1, root2, fuel2, txt);
            if let Ok((_, rest)) = run(*a, root1, fuel1, txt) {
                lemma_plain_steady(*b, root1, fuel1, root2, fuel2, rest);
            }
        },
        Rule::Right(a, b) => {
            lemma_plain_steady(*a, root1, fuel1, root2, fuel2, txt);
            if let Ok((_, rest)) = run(*a, root1, fuel1, txt) {
                lemma_plain_steady(*b, root1, fuel1, root2, fuel2, rest);
            }
        },
        Rule::Mapped(a, _) => {
            lemma_plain_steady(*a, root1, fuel1, root2, fuel2, txt);
        },
        Rule::All(a) => {
            lemma_plain_all_steady(*a, root1, fuel1, root2, fuel2, txt);
        },
        Rule::Any(ps) => {
            lemma_plain_any_steady(ps, root1, fuel1, root2, fuel2, txt);
        },
        _ => {},
    }
}

/// A repetition of a parser that refers to itself nowhere depends on neither
/// fuel nor root.
pub proof fn lemma_plain_all_steady<M: Mapper>(
    r: Rule<M>,
    root1: Option<Rule<M>>,
    fuel1: nat,
    root2: Option<Rule<M>>,
    fuel2: nat,
    txt: Seq<char>,
)
    requires
        plain(r),
    ensures
        run_all(r, root1, fuel1, txt) == run_all(r, root2, fuel2, txt),
    decreases r, txt.len() + 1,
{
    lemma_plain_steady(r, root1, fuel1, root2, fuel2, txt);
    if let Ok((_, rest)) = run(r, root1, fuel1, txt) {
        if rest.len() < txt.len() {
            lemma_plain_all_steady(r, root1, fuel1, root2, fuel2, rest);
        }
    }
}

/// An alternation of parsers that refer to themselves nowhere depends on
/// neither fuel nor root.
pub proof fn lemma_plain_any_steady<M: Mapper>(
    ps: Seq<Rule<M>>,
    root1: Option<Rule<M>>,
    fuel1: nat,
    root2: Option<Rule<M>>,
    fuel2: nat,
    txt: Seq<char>,
)
    requires
        forall|i: int| 0 <= i < ps.len() ==> plain(#[trigger] ps[i]),
    ensures
        run_any(ps, root1, fuel1, txt) == run_any(ps, root2, fuel2, txt),
    decreases ps, 0nat,
{
    if ps.len() > 0 {
        assert(plain(ps[0]));
        lemma_plain_steady(ps[0], root1, fuel1, root2, fuel2, txt);
        assert forall|i: int| 0 <= i < ps.skip(1).len() implies plain(#[trigger] ps.skip(1)[i]) by {
            assert(ps.skip(1)[i] == ps[i + 1]);
        }
        lemma_plain_any_steady(ps.skip(1), root1, fuel1, root2, fuel2, txt);
    }
}

/// Where a parser makes the same of every input no longer than `txt` with
/// either fuel, so does its repetition of `txt`.
pub proof fn lemma_all_steady<M: Mapper>(
    r: Rule<M>,
    root: Option<Rule<M>>,
    fuel1: nat,
    fuel2: nat,
    txt: Seq<char>,
)
    requires
        forall|u: Seq<char>|
            u.len() <= txt.len() ==> #[trigger] run(r, root, fuel1, u) == run(r, root, fuel2, u),
    ensures
        run_all(r, root, fuel1, txt) == run_all(r, root, fuel2, txt),
    decreases txt.len(),
{
    assert(run(r, root, fuel1, txt) == run(r, root, fuel2, txt));
    if let Ok((_, rest)) = run(r, root, fuel1, txt) {
        if rest.len() < txt.len() {
            assert forall|u: Seq<char>| u.len() <= rest.len() implies #[trigger] run(
                r,
                root,
                fuel1,
                u,
            ) == run(r, root, fuel2, u) by {}
            lemma_all_steady(r, root, fuel1, fuel2, rest);
        }
    }
}

/// Where each alternative makes the same of an input with either fuel, so does
/// the alternation.
pub proof fn lemma_any_steady<M: Mapper>(
    ps: Seq<Rule<M>>,
    root: Option<Rule<M>>,
    fuel1: nat,
    fuel2: nat,
    txt: Seq<char>,
)
    requires
        forall|i: int|
            0 <= i < ps.len() ==> #[trigger] run(ps[i], root, fuel1, txt) == run(
                ps[i],
                root,
                fuel2,
                txt,
            ),
    ensures
        run_any(ps, root, fuel1, txt) == run_any(ps, root, fuel2, txt),
    decreases ps.len(),
{
    if ps.len() > 0 {
        assert(run(ps[0], root, fuel1, txt) == run(ps[0], root, fuel2, txt));
        assert forall|i: int| 0 <= i < ps.skip(1).len() implies #[trigger] run(
            ps.skip(1)[i],
            root,
            fuel1,
            txt,
        ) == run(ps.skip(1)[i], root, fuel2, txt) by {
            assert(ps.skip(1)[i] == ps[i + 1]);
            assert(run(ps[i + 1], root, fuel1, txt) == run(ps[i + 1], root, fuel2, txt));
        }
        lemma_any_steady(ps.skip(1), root, fuel1, fuel2, txt);
    }
}

/// Where two parsers in a row make the same of their inputs with either fuel,
/// so does each way of running them in sequence.
pub proof fn lemma_sequence_steady<M: Mapper>(
    a: Rule<M>,
    b: Rule<M>,
    root: Option<Rule<M>>,
    fuel1: nat,
    fuel2: nat,
    txt: Seq<char>,
)
    requires
        run(a, root, fuel1, txt) == run(a, root, fuel2, txt),
        run(a, root, fuel1, txt) matches Ok((_, rest)) ==> run(b, root, fuel1, rest) == run(
            b,
            root,
            fuel2,
            rest,
        ),
    ensures
        run(Rule::Both(Box::new(a), Box::new(b)), root, fuel1, txt) == run(
            Rule::Both(Box::new(a), Box::new(b)),
            root,
            fuel2,
            txt,
        ),
        run(Rule::Left(Box::new(a), Box::new(b)), root, fuel1, txt) == run(
            Rule::Left(Box::new(a), Box::new(b)),
            root,
            fuel2,
            txt,
        ),
        run(Rule::Right(Box::new(a), Box::new(b)), root, fuel1, txt) == run(
            Rule::Right(Box::new(a), Box::new(b)),
            root,
            fuel2,
            txt,
        ),
{
}

/// The whitespace skip never fails.
pub proof fn lemma_spaces_never_fails<M: Mapper>(root: Option<Rule<M>>, fuel: nat, txt: Seq<char>)
    ensures
        run(Rule::<M>::Spaces, root, fuel, txt) is Ok,
{
}

/// A repetition needs one match: it succeeds with one item or more where its
/// parser succeeds on the input and consumes some of it, and else fails at
/// the start of the input.
pub proof fn lemma_all_needs_one<M: Mapper>(
    r: Rule<M>,
    root: Option<Rule<M>>,
    fuel: nat,
    txt: Seq<char>,
)
    ensures
        match run(r, root, fuel, txt) {
            Ok((_, rest)) if rest.len() < txt.len() => run(
                Rule::All(Box::new(r)),
                root,
                fuel,
                txt,
            ) matches Ok((d, _)) && d is Many && d->Many_0.len() >= 1,
            _ => run(Rule::All(Box::new(r)), root, fuel, txt) == Err::<
                (Datum<<M::Out as View>::V>, Seq<char>),
                (Seq<char>, Seq<char>),
            >(("all: no matches"@, txt)),
        },
{
    assert(run(Rule::All(Box::new(r)), root, fuel, txt) == {
        let (items, rest) = run_all(r, root, fuel, txt);
        if items.len() == 0 {
            Err(("all: no matches"@, rest))
        } else {
            Ok((Datum::Many(items), rest))
        }
    });
}

/// A mapped parser fails as its parser fails, and else gives the mapped value
/// with the same input left.
pub proof fn lemma_map_keeps_failures<M: Mapper>(
    r: Rule<M>,
    m: M,
    root: Option<Rule<M>>,
    fuel: nat,
    txt: Seq<char>,
)
    ensures
        match run(r, root, fuel, txt) {
            Ok((v, rest)) => run(Rule::Mapped(Box::new(r), m), root, fuel, txt) == Ok::<
                (Datum<<M::Out as View>::V>, Seq<char>),
                (Seq<char>, Seq<char>),
            >((m.mapped(v), rest)),
            Err(e) => run(Rule::Mapped(Box::new(r), m), root, fuel, txt) == Err::<
                (Datum<<M::Out as View>::V>, Seq<char>),
                (Seq<char>, Seq<char>),
            >(e),
        },
{
}

/// A sequence fails with the failure of its first parser, or else with the
/// failure of its second on what the first left: it does not rewind.
pub proof fn lemma_sequence_fails<M: Mapper>(
    a: Rule<M>,
    b: Rule<M>,
    root: Option<Rule<M>>,
    fuel: nat,
    txt: Seq<char>,
)
    ensures
        ({
            let both = run(Rule::Both(Box::new(a), Box::new(b)), root, fuel, txt);
            let left = run(Rule::Left(Box::new(a), Box::new(b)), root, fuel, txt);
            let right = run(Rule::Right(Box::new(a), Box::new(b)), root, fuel, txt);
            match run(a, root, fuel, txt) {
                Err(e) => both == Err::<
                    (Datum<<M::Out as View>::V>, Seq<char>),
                    (Seq<char>, Seq<char>),
                >(e) && left == both && right == both,
                Ok((va, rest)) => match run(b, root, fuel, rest) {
                    Err(e) => both == Err::<
                        (Datum<<M::Out as View>::V>, Seq<char>),
                        (Seq<char>, Seq<char>),
                    >(e) && left == both && right == both,
                    Ok((vb, end)) => both == Ok::<
                        (Datum<<M::Out as View>::V>, Seq<char>),
                        (Seq<char>, Seq<char>),
                    >((Datum::Pair(Box::new(va), Box::new(vb)), end)) && left == Ok::<
                        (Datum<<M::Out as View>::V>, Seq<char>),
                        (Seq<char>, Seq<char>),
                    >((va, end)) && right == Ok::<
                        (Datum<<M::Out as View>::V>, Seq<char>),
                        (Seq<char>, Seq<char>),
                    >((vb, end)),
                },
            }
        }),
{
}

} // verus!
