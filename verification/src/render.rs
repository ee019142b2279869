//! The text form of an expression.
use crate::expr::{lemma_list_view, lemma_quoted_view, terms, Expr, Term};
use crate::parser_combinators::{decimal, CharClass};
use crate::text::{chars_of, string_of};
use vstd::prelude::*;

verus! {

/// The character of the decimal digit `d`.
pub open spec fn digit_char(d: nat) -> char {
    if d == 0 {
        '0'
    } else if d == 1 {
        '1'
    } else if d == 2 {
        '2'
    } else if d == 3 {
        '3'
    } else if d == 4 {
        '4'
    } else if d == 5 {
        '5'
    } else if d == 6 {
        '6'
    } else if d == 7 {
        '7'
    } else if d == 8 {
        '8'
    } else {
        '9'
    }
}

/// The decimal digits of `n`, without leading zeros.
pub open spec fn digits_of(n: nat) -> Seq<char>
    decreases n,
{
    if n < 10 {
        seq![digit_char(n)]
    } else {
        digits_of(n / 10).push(digit_char(n % 10))
    }
}

/// The decimal text of `i`, with a minus sign where it is negative.
pub open spec fn int_text(i: int) -> Seq<char> {
    if i < 0 {
        seq!['-'] + digits_of((-i) as nat)
    } else {
        digits_of(i as nat)
    }
}

/// The text form of a value: an integer in decimal, a string between double
/// quotes, a symbol or identifier as its name, a form or a list between
/// brackets with a space on each side of every item, and a function as a
/// fixed mark.
pub open spec fn rendered(t: Term) -> Seq<char>
    decreases t, 0nat,
{
    match t {
        Term::Int(i) => int_text(i),
        Term::Str(s) => seq!['"'] + s + seq!['"'],
        Term::Symbol(s) => s,
        Term::Ident(s) => s,
        Term::Bool(b) => if b {
            seq!['t', 'r', 'u', 'e']
        } else {
            seq!['f', 'a', 'l', 's', 'e']
        },
        Term::Unit => seq!['u', 'n', 'i', 't'],
        Term::List(head, items) => seq!['(', ' '] + head + seq![' '] + rendered_items(items)
            + seq![')'],
        Term::QuotedList(items) => seq!['('] + rendered_items(items) + seq![')'],
        Term::Fun(_, _) => seq!['#', '#', 'f', 'u', 'n', '#', '#'],
    }
}

/// The text forms of the items, each with a space on each side.
pub open spec fn rendered_items(items: Seq<Term>) -> Seq<char>
    decreases items, 1nat,
{
    if items.len() == 0 {
        Seq::empty()
    } else {
        rendered_items(items.drop_last()) + seq![' '] + rendered(items.last()) + seq![' ']
    }
}

/// The decimal digits of a number denote that number.
pub proof fn lemma_digits_denote(n: nat)
    ensures
        decimal(digits_of(n)) == n,
        digits_of(n).len() > 0,
        forall|i: int|
            0 <= i < digits_of(n).len() ==> CharClass::Digit.has(
                #[trigger] digits_of(n)[i],
            ),
    decreases n,
{
    if n < 10 {
        assert(digits_of(n).drop_last() =~= Seq::<char>::empty());
        assert(decimal(digits_of(n).drop_last()) == 0);
    } else {
        lemma_digits_denote(n / 10);
        assert(digits_of(n).drop_last() =~= digits_of(n / 10));
    }
}

/// Appends the character of the digit `d`.
fn push_digit(d: u64, out: &mut Vec<char>)
    requires
        d < 10,
    ensures
        final(out)@ == old(out)@.push(digit_char(d as nat)),
{
    let c = if d == 0 {
        '0'
    } else if d == 1 {
        '1'
    } else if d == 2 {
        '2'
    } else if d == 3 {
        '3'
    } else if d == 4 {
        '4'
    } else if d == 5 {
        '5'
    } else if d == 6 {
        '6'
    } else if d == 7 {
        '7'
    } else if d == 8 {
        '8'
    } else {
        '9'
    };
    out.push(c);
}

/// Appends the decimal digits of `n`.
pub fn push_digits(n: u64, out: &mut Vec<char>)
    ensures
        final(out)@ == old(out)@ + digits_of(n as nat),
    decreases n,
{
    if n < 10 {
        push_digit(n, out);
        assert(out@ =~= old(out)@ + digits_of(n as nat));
    } else {
        push_digits(n / 10, out);
        push_digit(n % 10, out);
        assert(out@ =~= old(out)@ + digits_of(n as nat));
    }
}

/// Appends the decimal text of `i`.
pub fn push_int(i: i64, out: &mut Vec<char>)
    ensures
        final(out)@ == old(out)@ + int_text(i as int),
{
    if i < 0 {
        out.push('-');
        let magnitude: u64 = (-(i as i128)) as u64;
        push_digits(magnitude, out);
        assert(out@ =~= old(out)@ + int_text(i as int));
    } else {
        push_digits(i as u64, out);
    }
}

/// Appends the characters of `s`.
pub fn push_text(s: &str, out: &mut Vec<char>)
    ensures
        final(out)@ == old(out)@ + s@,
{
    let mut chars = chars_of(s);
    out.append(&mut chars);
}

/// Appends the text form of `e`.
pub fn render_into(e: &Expr, out: &mut Vec<char>)
    ensures
        final(out)@ == old(out)@ + rendered(e@),
    decreases e@, 0nat,
{
    match e {
        Expr::Int(i) => push_int(*i, out),
        Expr::Str(s) => {
            out.push('"');
            push_text(s.as_str(), out);
            out.push('"');
            assert(out@ =~= old(out)@ + rendered(e@));
        },
        Expr::Symbol(s) => push_text(s.as_str(), out),
        Expr::Ident(s) => push_text(s.as_str(), out),
        Expr::Bool(b) => {
            if *b {
                out.push('t');
                out.push('r');
                out.push('u');
                out.push('e');
            } else {
                out.push('f');
                out.push('a');
                out.push('l');
                out.push('s');
                out.push('e');
            }
            assert(out@ =~= old(out)@ + rendered(e@));
        },
        Expr::Unit => {
            out.push('u');
            out.push('n');
            out.push('i');
            out.push('t');
            assert(out@ =~= old(out)@ + rendered(e@));
        },
        Expr::List(head, items) => {
            proof {
                lemma_list_view(*head, *items);
            }
            out.push('(');
            out.push(' ');
            push_text(head.as_str(), out);
            out.push(' ');
            render_items(items, out);
            out.push(')');
            assert(out@ =~= old(out)@ + rendered(e@));
        },
        Expr::QuotedList(items) => {
            proof {
                lemma_quoted_view(*items);
                assert(decreases_to!(e@ => e@->QuotedList_0));
            }
            out.push('(');
            render_items(items, out);
            out.push(')');
            assert(out@ =~= old(out)@ + rendered(e@));
        },
        Expr::Fun(_, _) => {
            out.push('#');
            out.push('#');
            out.push('f');
            out.push('u');
            out.push('n');
            out.push('#');
            out.push('#');
            assert(out@ =~= old(out)@ + rendered(e@));
        },
    }
}

/// Appends the text forms of `items`, each with a space on each side.
pub fn render_items(items: &Vec<Expr>, out: &mut Vec<char>)
    ensures
        final(out)@ == old(out)@ + rendered_items(terms(items@)),
    decreases terms(items@), 1nat,
{
    let ghost all = terms(items@);
    let mut i: usize = 0;
    assert(all.take(0) =~= Seq::<Term>::empty());
    assert(out@ =~= old(out)@ + rendered_items(all.take(0)));
    while i < items.len()
        invariant
            i <= items.len(),
            all == terms(items@),
            out@ == old(out)@ + rendered_items(all.take(i as int)),
        decreases items.len() - i,
    {
        assert(all[i as int] == items[i as int]@);
        out.push(' ');
        render_into(&items[i], out);
        out.push(' ');
        proof {
            let next = all.take(i + 1);
            assert(next.drop_last() =~= all.take(i as int));
            assert(next.last() == items[i as int]@);
            assert(out@ =~= old(out)@ + rendered_items(next));
        }
        i += 1;
    }
    assert(all.take(items.len() as int) =~= all);
}

impl Expr {
    /// The text form of the expression.
    pub fn render(&self) -> (s: String)
        ensures
            s@ == rendered(self@),
    {
        let mut out: Vec<char> = Vec::new();
        render_into(self, &mut out);
        assert(out@ =~= rendered(self@));
        string_of(out.as_slice())
    }
}

} // verus!
