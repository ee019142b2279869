//! The expression model shared by the parser and the evaluator.
use vstd::prelude::*;
use vstd::std_specs::cmp::PartialEqSpecImpl;

verus! {

/// A node of the program tree.
#[derive(Debug, Hash)]
pub enum Expr {
    /// An integer literal.
    Int(i64),
    /// A string literal.
    Str(String),
    /// A boolean literal.
    Bool(bool),
    /// A quoted name.
    Symbol(String),
    /// The value of a form that has no value.
    Unit,
    /// A name that evaluation looks up.
    Ident(String),
    /// A form: a head and its arguments.
    List(String, Vec<Expr>),
    /// A sequence of expressions that is data.
    QuotedList(Vec<Expr>),
    /// A function: its formal parameters and its body.
    Fun(Vec<String>, Box<Expr>),
}

/// The mathematical value of an [`Expr`].
pub enum Term {
    Int(int),
    Str(Seq<char>),
    Bool(bool),
    Symbol(Seq<char>),
    Unit,
    Ident(Seq<char>),
    List(Seq<char>, Seq<Term>),
    QuotedList(Seq<Term>),
    Fun(Seq<Seq<char>>, Box<Term>),
}

/// The mathematical value of an expression.
pub open spec fn term_of(e: Expr) -> Term
    decreases e,
{
    match e {
        Expr::Int(i) => Term::Int(i as int),
        Expr::Str(s) => Term::Str(s@),
        Expr::Bool(b) => Term::Bool(b),
        Expr::Symbol(s) => Term::Symbol(s@),
        Expr::Unit => Term::Unit,
        Expr::Ident(s) => Term::Ident(s@),
        Expr::List(h, args) => Term::List(
            h@,
            Seq::new(
                args.len() as nat,
                |i: int|
                    if 0 <= i < args.len() {
                        term_of(args[i])
                    } else {
                        Term::Unit
                    },
            ),
        ),
        Expr::QuotedList(items) => Term::QuotedList(
            Seq::new(
                items.len() as nat,
                |i: int|
                    if 0 <= i < items.len() {
                        term_of(items[i])
                    } else {
                        Term::Unit
                    },
            ),
        ),
        Expr::Fun(params, body) => Term::Fun(
            Seq::new(params.len() as nat, |i: int| params[i]@),
            Box::new(term_of(*body)),
        ),
    }
}

impl View for Expr {
    type V = Term;

    open spec fn view(&self) -> Term {
        term_of(*self)
    }
}

/// The values of a sequence of expressions, in order.
pub open spec fn terms(es: Seq<Expr>) -> Seq<Term> {
    Seq::new(es.len(), |i: int| es[i]@)
}

/// The values of a sequence of names, in order.
pub open spec fn names(ss: Seq<String>) -> Seq<Seq<char>> {
    Seq::new(ss.len(), |i: int| ss[i]@)
}

/// The value of a form is made of the values of its arguments.
pub proof fn lemma_list_view(head: String, args: Vec<Expr>)
    ensures
        Expr::List(head, args)@ == Term::List(head@, terms(args@)),
{
    assert(Expr::List(head, args)@->List_1 =~= terms(args@));
}

/// The value of a quoted list is made of the values of its items.
pub proof fn lemma_quoted_view(items: Vec<Expr>)
    ensures
        Expr::QuotedList(items)@ == Term::QuotedList(terms(items@)),
{
    assert(Expr::QuotedList(items)@->QuotedList_0 =~= terms(items@));
}

/// The value of a function is made of its parameters' names and its body's
/// value.
pub proof fn lemma_fun_view(params: Vec<String>, body: Box<Expr>)
    ensures
        Expr::Fun(params, body)@ == Term::Fun(names(params@), Box::new(body@)),
{
    assert(Expr::Fun(params, body)@->Fun_0 =~= names(params@));
}

/// A copy of a list of names.
pub fn clone_names(v: &Vec<String>) -> (r: Vec<String>)
    ensures
        names(r@) == names(v@),
{
    let mut r: Vec<String> = Vec::new();
    let mut i: usize = 0;
    while i < v.len()
        invariant
            i <= v.len(),
            r.len() == i,
            forall|j: int| 0 <= j < i ==> r[j]@ == v[j]@,
        decreases v.len() - i,
    {
        r.push(v[i].clone());
        i += 1;
    }
    assert(names(r@) =~= names(v@));
    r
}

/// A copy of a list of expressions.
pub fn clone_exprs(v: &Vec<Expr>) -> (r: Vec<Expr>)
    ensures
        terms(r@) == terms(v@),
    decreases v,
{
    let mut r: Vec<Expr> = Vec::new();
    let mut i: usize = 0;
    while i < v.len()
        invariant
            i <= v.len(),
            r.len() == i,
            forall|j: int| 0 <= j < i ==> r[j]@ == v[j]@,
        decreases v.len() - i,
    {
        r.push(v[i].clone());
        i += 1;
    }
    assert(terms(r@) =~= terms(v@));
    r
}

impl Clone for Expr {
    /// A copy with the same value.
    fn clone(&self) -> (r: Expr)
        ensures
            r@ == self@,
        decreases self,
    {
        match self {
            Expr::Int(i) => Expr::Int(*i),
            Expr::Str(s) => Expr::Str(s.clone()),
            Expr::Bool(b) => Expr::Bool(*b),
            Expr::Symbol(s) => Expr::Symbol(s.clone()),
            Expr::Unit => Expr::Unit,
            Expr::Ident(s) => Expr::Ident(s.clone()),
            Expr::List(h, args) => {
                let copy = clone_exprs(args);
                let head = h.clone();
                proof {
                    lemma_list_view(*h, *args);
                    lemma_list_view(head, copy);
                }
                Expr::List(head, copy)
            },
            Expr::QuotedList(items) => {
                let copy = clone_exprs(items);
                proof {
                    lemma_quoted_view(*items);
                    lemma_quoted_view(copy);
                }
                Expr::QuotedList(copy)
            },
            Expr::Fun(params, body) => {
                let ps = clone_names(params);
                let b = Box::new((**body).clone());
                proof {
                    lemma_fun_view(*params, *body);
                    lemma_fun_view(ps, b);
                }
                Expr::Fun(ps, b)
            },
        }
    }
}

/// Tells whether two lists of names hold the same names in the same order.
pub fn same_names(a: &Vec<String>, b: &Vec<String>) -> (r: bool)
    ensures
        r == (names(a@) == names(b@)),
{
    if a.len() != b.len() {
        assert(names(a@).len() != names(b@).len());
        return false;
    }
    let mut i: usize = 0;
    while i < a.len()
        invariant
            i <= a.len(),
            a.len() == b.len(),
            forall|j: int| 0 <= j < i ==> a[j]@ == b[j]@,
        decreases a.len() - i,
    {
        if a[i] != b[i] {
            assert(names(a@)[i as int] != names(b@)[i as int]);
            return false;
        }
        i += 1;
    }
    assert(names(a@) =~= names(b@));
    true
}

/// Tells whether two lists of expressions are equal item by item.
pub fn same_exprs(a: &Vec<Expr>, b: &Vec<Expr>) -> (r: bool)
    ensures
        r == (terms(a@) == terms(b@)),
    decreases a,
{
    if a.len() != b.len() {
        assert(terms(a@).len() != terms(b@).len());
        return false;
    }
    let mut i: usize = 0;
    while i < a.len()
        invariant
            i <= a.len(),
            a.len() == b.len(),
            forall|j: int| 0 <= j < i ==> a[j]@ == b[j]@,
        decreases a.len() - i,
    {
        if !a[i].same(&b[i]) {
            assert(terms(a@)[i as int] != terms(b@)[i as int]);
            return false;
        }
        i += 1;
    }
    assert(terms(a@) =~= terms(b@));
    true
}

impl Expr {
    /// Structural equality: the same kind of node, with equal parts.
    pub fn same(&self, other: &Expr) -> (r: bool)
        ensures
            r == (self@ == other@),
        decreases self,
    {
        match (self, other) {
            (Expr::Int(a), Expr::Int(b)) => *a == *b,
            (Expr::Str(a), Expr::Str(b)) => *a == *b,
            (Expr::Bool(a), Expr::Bool(b)) => *a == *b,
            (Expr::Symbol(a), Expr::Symbol(b)) => *a == *b,
            (Expr::Unit, Expr::Unit) => true,
            (Expr::Ident(a), Expr::Ident(b)) => *a == *b,
            (Expr::List(ha, xs), Expr::List(hb, ys)) => {
                proof {
                    lemma_list_view(*ha, *xs);
                    lemma_list_view(*hb, *ys);
                }
                *ha == *hb && same_exprs(xs, ys)
            },
            (Expr::QuotedList(xs), Expr::QuotedList(ys)) => {
                proof {
                    lemma_quoted_view(*xs);
                    lemma_quoted_view(*ys);
                }
                same_exprs(xs, ys)
            },
            (Expr::Fun(ps, x), Expr::Fun(qs, y)) => {
                proof {
                    lemma_fun_view(*ps, *x);
                    lemma_fun_view(*qs, *y);
                }
                same_names(ps, qs) && (**x).same(&**y)
            },
            _ => false,
        }
    }
}

impl PartialEq for Expr {
    fn eq(&self, other: &Expr) -> (r: bool) {
        self.same(other)
    }
}

impl PartialEqSpecImpl for Expr {
    open spec fn obeys_eq_spec() -> bool {
        true
    }

    open spec fn eq_spec(&self, other: &Expr) -> bool {
        self@ == other@
    }
}

impl Eq for Expr {

}

} // verus!
