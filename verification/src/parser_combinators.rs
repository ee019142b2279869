//! Backtracking matchers over a sequence of characters, and the combinators
//! that compose them. Nothing here knows a target grammar.
//!
//! A parser is a finite description ([`Grammar`]) that is interpreted against
//! the input. What a parser accepts is defined once, on the mathematical
//! description ([`Rule`]) by [`run`]; every executable matcher is proved to
//! compute exactly that.
use crate::text::{chars_of, string_of};
use std::rc::Rc;
use vstd::prelude::*;
use vstd::slice::slice_subrange;

verus! {

/// What a parser hands back on success. `T` is the type of the values that a
/// grammar's own mapper builds.
#[derive(Debug)]
pub enum Value<T> {
    /// One matched character.
    Char(char),
    /// A matched literal or word.
    Str(String),
    /// An integer literal.
    Int(i64),
    /// How many characters a skip consumed.
    Count(usize),
    /// The results of two parsers run in sequence.
    Pair(Box<Value<T>>, Box<Value<T>>),
    /// The results of a repetition, in order.
    Many(Vec<Value<T>>),
    /// A value built by the grammar's mapper.
    Node(T),
}

/// The mathematical value of a [`Value`].
pub enum Datum<V> {
    Char(char),
    Str(Seq<char>),
    Int(int),
    Count(nat),
    Pair(Box<Datum<V>>, Box<Datum<V>>),
    Many(Seq<Datum<V>>),
    Node(V),
}

/// The mathematical value of a parse result.
pub open spec fn datum_of<T: View>(v: Value<T>) -> Datum<T::V>
    decreases v,
{
    match v {
        Value::Char(c) => Datum::Char(c),
        Value::Str(s) => Datum::Str(s@),
        Value::Int(i) => Datum::Int(i as int),
        Value::Count(n) => Datum::Count(n as nat),
        Value::Pair(a, b) => Datum::Pair(Box::new(datum_of(*a)), Box::new(datum_of(*b))),
        Value::Many(items) => Datum::Many(
            Seq::new(
                items.len() as nat,
                |i: int|
                    if 0 <= i < items.len() {
                        datum_of(items[i])
                    } else {
                        Datum::Count(0)
                    },
            ),
        ),
        Value::Node(t) => Datum::Node(t@),
    }
}

impl<T: View> View for Value<T> {
    type V = Datum<T::V>;

    open spec fn view(&self) -> Datum<T::V> {
        datum_of(*self)
    }
}

/// A pure transformation of parse results, the argument of `map`. A grammar
/// brings one type that enumerates the transformations it uses.
pub trait Mapper: Sized {
    /// The values that the transformations build.
    type Out: View;

    /// What the transformation makes of a result.
    spec fn mapped(&self, d: Datum<<Self::Out as View>::V>) -> Datum<<Self::Out as View>::V>;

    /// Applies the transformation.
    fn apply(&self, v: Value<Self::Out>) -> (r: Value<Self::Out>)
        ensures
            r@ == self.mapped(v@),
    ;
}

/// The mapper of a grammar that transforms nothing.
#[derive(Clone, Copy, Debug)]
pub struct Identity;

impl Mapper for Identity {
    type Out = ();

    open spec fn mapped(&self, d: Datum<()>) -> Datum<()> {
        d
    }

    fn apply(&self, v: Value<()>) -> (r: Value<()>) {
        v
    }
}

/// A shared, immutable handle to a parser.
pub type RcParser<M> = Rc<Grammar<M>>;

/// A parser: a primitive matcher or a composition of parsers.
pub enum Grammar<M> {
    /// Matches one given character.
    Char(char),
    /// Matches a given string.
    Str(Vec<char>),
    /// Matches one or more decimal digits.
    Int,
    /// Matches one or more characters of the word alphabet.
    Word,
    /// Skips whitespace.
    Spaces,
    /// Runs two parsers in sequence and pairs their results.
    Both(RcParser<M>, RcParser<M>),
    /// Runs two parsers in sequence and keeps the first result.
    Left(RcParser<M>, RcParser<M>),
    /// Runs two parsers in sequence and keeps the second result.
    Right(RcParser<M>, RcParser<M>),
    /// Transforms the result of a parser.
    Mapped(RcParser<M>, M),
    /// Repeats a parser one or more times.
    All(RcParser<M>),
    /// Takes the first of several parsers that succeeds.
    Any(Vec<RcParser<M>>),
    /// A parser that may refer to itself through `Recur`.
    Refl(RcParser<M>),
    /// Stands for the nearest enclosing `Refl`.
    Recur,
}

/// The mathematical description of a [`Grammar`].
pub enum Rule<M> {
    Char(char),
    Str(Seq<char>),
    Int,
    Word,
    Spaces,
    Both(Box<Rule<M>>, Box<Rule<M>>),
    Left(Box<Rule<M>>, Box<Rule<M>>),
    Right(Box<Rule<M>>, Box<Rule<M>>),
    Mapped(Box<Rule<M>>, M),
    All(Box<Rule<M>>),
    Any(Seq<Rule<M>>),
    Refl(Box<Rule<M>>),
    Recur,
}

/// The mathematical description of a parser.
pub open spec fn rule_of<M>(g: Grammar<M>) -> Rule<M>
    decreases g,
{
    match g {
        Grammar::Char(c) => Rule::Char(c),
        Grammar::Str(s) => Rule::Str(s@),
        Grammar::Int => Rule::Int,
        Grammar::Word => Rule::Word,
        Grammar::Spaces => Rule::Spaces,
        Grammar::Both(a, b) => Rule::Both(Box::new(rule_of(*a)), Box::new(rule_of(*b))),
        Grammar::Left(a, b) => Rule::Left(Box::new(rule_of(*a)), Box::new(rule_of(*b))),
        Grammar::Right(a, b) => Rule::Right(Box::new(rule_of(*a)), Box::new(rule_of(*b))),
        Grammar::Mapped(a, m) => Rule::Mapped(Box::new(rule_of(*a)), m),
        Grammar::All(a) => Rule::All(Box::new(rule_of(*a))),
        Grammar::Any(ps) => Rule::Any(
            Seq::new(
                ps.len() as nat,
                |i: int|
                    if 0 <= i < ps.len() {
                        rule_of(*ps[i])
                    } else {
                        Rule::Recur
                    },
            ),
        ),
        Grammar::Refl(a) => Rule::Refl(Box::new(rule_of(*a))),
        Grammar::Recur => Rule::Recur,
    }
}

impl<M> View for Grammar<M> {
    type V = Rule<M>;

    open spec fn view(&self) -> Rule<M> {
        rule_of(*self)
    }
}

/// What a parser makes of an input: the value and the input that is left, or
/// the reason of the failure and the input at which it failed.
pub type Outcome<V> = Result<(Datum<V>, Seq<char>), (Seq<char>, Seq<char>)>;

/// The sets of characters that the primitive matchers repeat over.
#[derive(Clone, Copy, Debug)]
pub enum CharClass {
    /// Space, tab, carriage return and line feed.
    Space,
    /// The decimal digits.
    Digit,
    /// The alphabet of words: every character from `*` to `z`.
    Word,
}

impl CharClass {
    /// Whether `c` belongs to the class.
    pub open spec fn has(self, c: char) -> bool {
        match self {
            CharClass::Space => c == ' ' || c == '\t' || c == '\r' || c == '\n',
            CharClass::Digit => '0' <= c <= '9',
            CharClass::Word => '*' <= c <= 'z',
        }
    }

    /// Tells whether `c` belongs to the class.
    pub fn contains(&self, c: char) -> (b: bool)
        ensures
            b == self.has(c),
    {
        match self {
            CharClass::Space => c == ' ' || c == '\t' || c == '\r' || c == '\n',
            CharClass::Digit => '0' <= c && c <= '9',
            CharClass::Word => '*' <= c && c <= 'z',
        }
    }
}

/// The length of the longest prefix of `txt` whose characters all belong to
/// `class`.
pub open spec fn prefix_len(txt: Seq<char>, class: CharClass) -> nat
    decreases txt.len(),
{
    if txt.len() > 0 && class.has(txt[0]) {
        1 + prefix_len(txt.skip(1), class)
    } else {
        0
    }
}

/// The number that a sequence of decimal digits denotes.
pub open spec fn decimal(digits: Seq<char>) -> nat
    decreases digits.len(),
{
    if digits.len() == 0 {
        0
    } else {
        decimal(digits.drop_last()) * 10 + (digits.last() as nat - '0' as nat) as nat
    }
}

/// Whether `prefix` is how `txt` begins.
pub open spec fn starts_with(txt: Seq<char>, prefix: Seq<char>) -> bool {
    prefix.len() <= txt.len() && txt.take(prefix.len() as int) == prefix
}

/// What the parser `r` makes of the input `txt`.
///
/// `root` is the body of the nearest enclosing `Refl`, the parser that `Recur`
/// stands for. `fuel` bounds how many times `Recur` may be entered in a nest.
pub open spec fn run<M: Mapper>(
    r: Rule<M>,
    root: Option<Rule<M>>,
    fuel: nat,
    txt: Seq<char>,
) -> Outcome<<M::Out as View>::V>
    decreases fuel, r, 0nat,
{
    match r {
        Rule::Char(c) => if txt.len() > 0 && txt[0] == c {
            Ok((Datum::Char(c), txt.skip(1)))
        } else {
            Err(("no char"@, txt))
        },
        Rule::Str(s) => if starts_with(txt, s) {
            Ok((Datum::Str(s), txt.skip(s.len() as int)))
        } else {
            Err(("no str"@, txt))
        },
        Rule::Int => {
            let n = prefix_len(txt, CharClass::Digit);
            if n == 0 {
                Err(("all: no matches"@, txt))
            } else if decimal(txt.take(n as int)) > i64::MAX {
                Err(("int: out of range"@, txt))
            } else {
                Ok((Datum::Int(decimal(txt.take(n as int)) as int), txt.skip(n as int)))
            }
        },
        Rule::Word => {
            let n = prefix_len(txt, CharClass::Word);
            if n == 0 {
                Err(("all: no matches"@, txt))
            } else {
                Ok((Datum::Str(txt.take(n as int)), txt.skip(n as int)))
            }
        },
        Rule::Spaces => {
            let n = prefix_len(txt, CharClass::Space);
            Ok((Datum::Count(n), txt.skip(n as int)))
        },
        Rule::Both(a, b) => match run(*a, root, fuel, txt) {
            Err(e) => Err(e),
            Ok((va, rest)) => match run(*b, root, fuel, rest) {
                Err(e) => Err(e),
                Ok((vb, end)) => Ok((Datum::Pair(Box::new(va), Box::new(vb)), end)),
            },
        },
        Rule::Left(a, b) => match run(*a, root, fuel, txt) {
            Err(e) => Err(e),
            Ok((va, rest)) => match run(*b, root, fuel, rest) {
                Err(e) => Err(e),
                Ok((vb, end)) => Ok((va, end)),
            },
        },
        Rule::Right(a, b) => match run(*a, root, fuel, txt) {
            Err(e) => Err(e),
            Ok((va, rest)) => match run(*b, root, fuel, rest) {
                Err(e) => Err(e),
                Ok((vb, end)) => Ok((vb, end)),
            },
        },
        Rule::Mapped(a, m) => match run(*a, root, fuel, txt) {
            Err(e) => Err(e),
            Ok((v, rest)) => Ok((m.mapped(v), rest)),
        },
        Rule::All(a) => {
            let (items, rest) = run_all(*a, root, fuel, txt);
            if items.len() == 0 {
                Err(("all: no matches"@, rest))
            } else {
                Ok((Datum::Many(items), rest))
            }
        },
        Rule::Any(ps) => run_any(ps, root, fuel, txt),
        Rule::Refl(body) => run(*body, Some(*body), fuel, txt),
        Rule::Recur => match root {
            Some(body) if fuel > 0 => run(body, root, (fuel - 1) as nat, txt),
            Some(_) => Err(("refl: too deep"@, txt)),
            None => Err(("refl: not installed"@, txt)),
        },
    }
}

/// The results of applying `r` again and again, and the input that is left.
/// The repetition ends when `r` fails, or succeeds without consuming input.
pub open spec fn run_all<M: Mapper>(
    r: Rule<M>,
    root: Option<Rule<M>>,
    fuel: nat,
    txt: Seq<char>,
) -> (Seq<Datum<<M::Out as View>::V>>, Seq<char>)
    decreases fuel, r, txt.len() + 1,
{
    match run(r, root, fuel, txt) {
        Ok((v, rest)) if rest.len() < txt.len() => {
            let (items, end) = run_all(r, root, fuel, rest);
            (seq![v] + items, end)
        },
        _ => (Seq::empty(), txt),
    }
}

/// What the first parser of `ps` that succeeds on `txt` makes of it.
pub open spec fn run_any<M: Mapper>(
    ps: Seq<Rule<M>>,
    root: Option<Rule<M>>,
    fuel: nat,
    txt: Seq<char>,
) -> Outcome<<M::Out as View>::V>
    decreases fuel, ps, 0nat,
{
    if ps.len() == 0 {
        Err(("any: no matches"@, txt))
    } else {
        match run(ps[0], root, fuel, txt) {
            Ok(found) => Ok(found),
            Err(_) => run_any(ps.skip(1), root, fuel, txt),
        }
    }
}

/// Whether every `Recur` in `r` has a `Refl` around it, taking `bound` to say
/// whether `r` itself stands inside one.
pub open spec fn closed<M>(r: Rule<M>, bound: bool) -> bool
    decreases r,
{
    match r {
        Rule::Both(a, b) => closed(*a, bound) && closed(*b, bound),
        Rule::Left(a, b) => closed(*a, bound) && closed(*b, bound),
        Rule::Right(a, b) => closed(*a, bound) && closed(*b, bound),
        Rule::Mapped(a, _) => closed(*a, bound),
        Rule::All(a) => closed(*a, bound),
        Rule::Any(ps) => forall|i: int| 0 <= i < ps.len() ==> closed(#[trigger] ps[i], bound),
        Rule::Refl(a) => closed(*a, true),
        Rule::Recur => bound,
        _ => true,
    }
}

/// A successful parse: the value and the input that is left.
#[derive(Debug)]
pub struct Corr<'a, T> {
    pub txt: &'a [char],
    pub res: T,
}

/// The result of a parse: a success, or the reason of the failure with the
/// input at which it failed.
pub type ParseResult<'a, T> = Result<Corr<'a, T>, (&'a str, &'a [char])>;

/// Whether the result `r` is the outcome `o`.
pub open spec fn answers<'a, T: View>(r: ParseResult<'a, Value<T>>, o: Outcome<T::V>) -> bool {
    match r {
        Ok(c) => o == Ok::<(Datum<T::V>, Seq<char>), (Seq<char>, Seq<char>)>((c.res@, c.txt@)),
        Err((why, at)) => o == Err::<(Datum<T::V>, Seq<char>), (Seq<char>, Seq<char>)>(
            (why@, at@),
        ),
    }
}

/// The values of a sequence of parse results, in order.
pub open spec fn data_of<T: View>(items: Seq<Value<T>>) -> Seq<Datum<T::V>> {
    Seq::new(items.len(), |i: int| items[i]@)
}

/// The value of a repetition is made of the values of its items.
pub proof fn lemma_many_view<T: View>(items: Vec<Value<T>>)
    ensures
        Value::Many(items)@ == Datum::Many(data_of(items@)),
{
    assert(Value::Many(items)@->Many_0 =~= data_of(items@));
}

/// Another handle to the same parser.
///
/// Trusted: the body calls `Rc::clone` of std, and nothing is proved of it.
/// The contract states what std documents of that call: the new handle points
/// to the same value as `p`.
#[verifier::external_body]
fn share<M>(p: &RcParser<M>) -> (r: RcParser<M>)
    ensures
        r == *p,
{
    Rc::clone(p)
}

/// Counts the characters at the start of `txt` that belong to `class`.
pub fn count_prefix(txt: &[char], class: CharClass) -> (n: usize)
    ensures
        n == prefix_len(txt@, class),
        n <= txt.len(),
{
    let mut i: usize = 0;
    assert(txt@.skip(0) =~= txt@);
    while i < txt.len() && class.contains(txt[i])
        invariant
            i <= txt.len(),
            prefix_len(txt@, class) == i + prefix_len(txt@.skip(i as int), class),
        decreases txt.len() - i,
    {
        assert(txt@.skip(i as int).skip(1) =~= txt@.skip(i + 1));
        i += 1;
    }
    i
}

/// The characters that `prefix_len` counts belong to the class.
pub proof fn lemma_prefix_in_class(txt: Seq<char>, class: CharClass)
    ensures
        prefix_len(txt, class) <= txt.len(),
        forall|i: int| 0 <= i < prefix_len(txt, class) ==> class.has(#[trigger] txt[i]),
    decreases txt.len(),
{
    if txt.len() > 0 && class.has(txt[0]) {
        lemma_prefix_in_class(txt.skip(1), class);
        assert forall|i: int| 0 <= i < prefix_len(txt, class) implies class.has(
            #[trigger] txt[i],
        ) by {
            if i > 0 {
                assert(txt[i] == txt.skip(1)[i - 1]);
            }
        }
    }
}

/// Tells whether `txt` begins with `prefix`.
pub fn has_prefix(txt: &[char], prefix: &[char]) -> (b: bool)
    ensures
        b == starts_with(txt@, prefix@),
{
    if prefix.len() > txt.len() {
        return false;
    }
    let mut i: usize = 0;
    while i < prefix.len()
        invariant
            i <= prefix.len() <= txt.len(),
            txt@.take(i as int) == prefix@.take(i as int),
        decreases prefix.len() - i,
    {
        if txt[i] != prefix[i] {
            assert(txt@.take(prefix.len() as int)[i as int] != prefix@[i as int]);
            return false;
        }
        i += 1;
        assert(txt@.take(i as int) =~= txt@.take(i - 1).push(txt@[i - 1]));
        assert(prefix@.take(i as int) =~= prefix@.take(i - 1).push(prefix@[i - 1]));
    }
    assert(prefix@.take(prefix.len() as int) =~= prefix@);
    true
}

/// A longer run of digits denotes no smaller a number.
pub proof fn lemma_decimal_grows(digits: Seq<char>, k: int)
    requires
        0 <= k <= digits.len(),
    ensures
        decimal(digits.take(k)) <= decimal(digits),
    decreases digits.len(),
{
    if k == digits.len() {
        assert(digits.take(k) =~= digits);
    } else {
        lemma_decimal_grows(digits.drop_last(), k);
        assert(digits.drop_last().take(k) =~= digits.take(k));
    }
}

/// The number that `digits` denotes, if it fits in 64 bits.
fn decimal_value(digits: &[char]) -> (v: Option<i64>)
    requires
        forall|i: int| 0 <= i < digits.len() ==> CharClass::Digit.has(#[trigger] digits[i]),
    ensures
        match v {
            Some(x) => x == decimal(digits@),
            None => decimal(digits@) > i64::MAX,
        },
{
    let mut acc: i64 = 0;
    let mut i: usize = 0;
    while i < digits.len()
        invariant
            i <= digits.len(),
            0 <= acc,
            acc == decimal(digits@.take(i as int)),
            forall|j: int| 0 <= j < digits.len() ==> CharClass::Digit.has(#[trigger] digits[j]),
        decreases digits.len() - i,
    {
        let c = digits[i];
        assert(CharClass::Digit.has(digits[i as int]));
        let d: i64 = (c as u32 - '0' as u32) as i64;
        proof {
            assert(digits@.take(i + 1).drop_last() =~= digits@.take(i as int));
            assert(digits@.take(i + 1).last() == c);
            assert(decimal(digits@.take(i + 1)) == acc * 10 + d);
            lemma_decimal_grows(digits@, i + 1);
        }
        if acc > (i64::MAX - d) / 10 {
            return None;
        }
        acc = acc * 10 + d;
        i += 1;
    }
    assert(digits@.take(digits.len() as int) =~= digits@);
    Some(acc)
}

/// Tells whether every `Recur` in `g` has a `Refl` around it, taking `bound` to
/// say whether `g` itself stands inside one. Only such a parser can be run.
pub fn is_closed<M>(g: &Grammar<M>, bound: bool) -> (b: bool)
    ensures
        b == closed(g@, bound),
    decreases g@,
{
    match g {
        Grammar::Both(x, y) => {
            assert(decreases_to!(g@ => g@->Both_0));
            assert(decreases_to!(g@ => g@->Both_1));
            is_closed(&**x, bound) && is_closed(&**y, bound)
        },
        Grammar::Left(x, y) => {
            assert(decreases_to!(g@ => g@->Left_0));
            assert(decreases_to!(g@ => g@->Left_1));
            is_closed(&**x, bound) && is_closed(&**y, bound)
        },
        Grammar::Right(x, y) => {
            assert(decreases_to!(g@ => g@->Right_0));
            assert(decreases_to!(g@ => g@->Right_1));
            is_closed(&**x, bound) && is_closed(&**y, bound)
        },
        Grammar::Mapped(x, _) => {
            assert(decreases_to!(g@ => g@->Mapped_0));
            is_closed(&**x, bound)
        },
        Grammar::All(x) => {
            assert(decreases_to!(g@ => g@->All_0));
            is_closed(&**x, bound)
        },
        Grammar::Any(ps) => {
            let ghost rules = g@->Any_0;
            let mut i: usize = 0;
            while i < ps.len()
                invariant
                    i <= ps.len(),
                    g@ == Rule::Any(rules),
                    rules.len() == ps.len(),
                    forall|j: int| 0 <= j < ps.len() ==> rules[j] == (#[trigger] ps[j])@,
                    forall|j: int| 0 <= j < i ==> closed(#[trigger] rules[j], bound),
                    closed(g@, bound) == (forall|j: int|
                        0 <= j < rules.len() ==> closed(#[trigger] rules[j], bound)),
                decreases ps.len() - i,
            {
                assert(rules[i as int] == ps[i as int]@);
                assert(decreases_to!(g@ => g@->Any_0));
                if !is_closed(&*ps[i], bound) {
                    return false;
                }
                i += 1;
            }
            true
        },
        Grammar::Refl(x) => {
            assert(decreases_to!(g@ => g@->Refl_0));
            is_closed(&**x, true)
        },
        Grammar::Recur => bound,
        _ => true,
    }
}

/// The description of the parser that `Recur` stands for, if there is one.
pub open spec fn root_rule<M>(root: Option<&Grammar<M>>) -> Option<Rule<M>> {
    match root {
        Some(g) => Some(g@),
        None => None,
    }
}

/// Runs the parser `g` on `txt`, with `root` the body of the nearest enclosing
/// `Refl` and `fuel` the number of times that `Recur` may still be entered.
pub fn interpret<'a, M: Mapper>(
    g: &Grammar<M>,
    root: Option<&Grammar<M>>,
    fuel: usize,
    txt: &'a [char],
) -> (r: ParseResult<'a, Value<M::Out>>)
    requires
        closed(g@, root is Some),
        root matches Some(b) ==> closed(b@, true),
    ensures
        answers(r, run(g@, root_rule(root), fuel as nat, txt@)),
    decreases fuel, g@,
{
    match g {
        Grammar::Char(c) => {
            if txt.len() > 0 && txt[0] == *c {
                Ok(Corr { txt: slice_subrange(txt, 1, txt.len()), res: Value::Char(*c) })
            } else {
                Err(("no char", txt))
            }
        },
        Grammar::Str(s) => {
            if has_prefix(txt, s.as_slice()) {
                Ok(
                    Corr {
                        txt: slice_subrange(txt, s.len(), txt.len()),
                        res: Value::Str(string_of(s.as_slice())),
                    },
                )
            } else {
                Err(("no str", txt))
            }
        },
        Grammar::Int => {
            let n = count_prefix(txt, CharClass::Digit);
            if n == 0 {
                Err(("all: no matches", txt))
            } else {
                proof {
                    lemma_prefix_in_class(txt@, CharClass::Digit);
                }
                match decimal_value(slice_subrange(txt, 0, n)) {
                    Some(v) => Ok(Corr { txt: slice_subrange(txt, n, txt.len()), res: Value::Int(v) }),
                    None => Err(("int: out of range", txt)),
                }
            }
        },
        Grammar::Word => {
            let n = count_prefix(txt, CharClass::Word);
            if n == 0 {
                Err(("all: no matches", txt))
            } else {
                Ok(
                    Corr {
                        txt: slice_subrange(txt, n, txt.len()),
                        res: Value::Str(string_of(slice_subrange(txt, 0, n))),
                    },
                )
            }
        },
        Grammar::Spaces => {
            let n = count_prefix(txt, CharClass::Space);
            Ok(Corr { txt: slice_subrange(txt, n, txt.len()), res: Value::Count(n) })
        },
        Grammar::Both(a, b) => {
            match interpret(&**a, root, fuel, txt) {
                Err(e) => Err(e),
                Ok(first) => match interpret(&**b, root, fuel, first.txt) {
                    Err(e) => Err(e),
                    Ok(second) => Ok(
                        Corr {
                            txt: second.txt,
                            res: Value::Pair(Box::new(first.res), Box::new(second.res)),
                        },
                    ),
                },
            }
        },
        Grammar::Left(a, b) => {
            match interpret(&**a, root, fuel, txt) {
                Err(e) => Err(e),
                Ok(first) => match interpret(&**b, root, fuel, first.txt) {
                    Err(e) => Err(e),
                    Ok(second) => Ok(Corr { txt: second.txt, res: first.res }),
                },
            }
        },
        Grammar::Right(a, b) => {
            match interpret(&**a, root, fuel, txt) {
                Err(e) => Err(e),
                Ok(first) => match interpret(&**b, root, fuel, first.txt) {
                    Err(e) => Err(e),
                    Ok(second) => Ok(Corr { txt: second.txt, res: second.res }),
                },
            }
        },
        Grammar::Mapped(a, m) => {
            match interpret(&**a, root, fuel, txt) {
                Err(e) => Err(e),
                Ok(found) => Ok(Corr { txt: found.txt, res: m.apply(found.res) }),
            }
        },
        Grammar::All(a) => {
            let mut items: Vec<Value<M::Out>> = Vec::new();
            let mut rest = txt;
            let ghost rule = a@;
            let ghost whole = run_all(rule, root_rule(root), fuel as nat, txt@);
            assert(data_of(items@) + whole.0 =~= whole.0);
            loop
                invariant
                    rule == a@,
                    decreases_to!(g@ => rule),
                    closed(rule, root is Some),
                    root matches Some(b) ==> closed(b@, true),
                    whole == run_all(rule, root_rule(root), fuel as nat, txt@),
                    whole.0 == data_of(items@) + run_all(
                        rule,
                        root_rule(root),
                        fuel as nat,
                        rest@,
                    ).0,
                    whole.1 == run_all(rule, root_rule(root), fuel as nat, rest@).1,
                ensures
                    whole == (data_of(items@), rest@),
                decreases rest.len(),
            {
                match interpret(&**a, root, fuel, rest) {
                    Ok(found) => {
                        if found.txt.len() < rest.len() {
                            let ghost before = items@;
                            let ghost tail = run_all(
                                rule,
                                root_rule(root),
                                fuel as nat,
                                found.txt@,
                            ).0;
                            items.push(found.res);
                            rest = found.txt;
                            assert(data_of(items@) + tail =~= data_of(before) + (seq![
                                found.res@,
                            ] + tail));
                        } else {
                            assert(data_of(items@) + Seq::empty() =~= data_of(items@));
                            break ;
                        }
                    },
                    Err(_) => {
                        assert(data_of(items@) + Seq::empty() =~= data_of(items@));
                        break ;
                    },
                }
            }
            if items.len() == 0 {
                Err(("all: no matches", rest))
            } else {
                proof {
                    lemma_many_view(items);
                }
                Ok(Corr { txt: rest, res: Value::Many(items) })
            }
        },
        Grammar::Any(ps) => {
            let ghost rules = g@->Any_0;
            let mut i: usize = 0;
            assert(rules.skip(0) =~= rules);
            while i < ps.len()
                invariant
                    i <= ps.len(),
                    g@ == Rule::Any(rules),
                    rules.len() == ps.len(),
                    forall|j: int| 0 <= j < ps.len() ==> rules[j] == (#[trigger] ps[j])@,
                    closed(g@, root is Some),
                    root matches Some(b) ==> closed(b@, true),
                    run_any(rules, root_rule(root), fuel as nat, txt@) == run_any(
                        rules.skip(i as int),
                        root_rule(root),
                        fuel as nat,
                        txt@,
                    ),
                decreases ps.len() - i,
            {
                assert(rules.skip(i as int).skip(1) =~= rules.skip(i + 1));
                assert(closed(rules[i as int], root is Some));
                match interpret(&*ps[i], root, fuel, txt) {
                    Ok(found) => {
                        return Ok(found);
                    },
                    Err(_) => {},
                }
                i += 1;
            }
            Err(("any: no matches", txt))
        },
        Grammar::Refl(body) => interpret(&**body, Some(&**body), fuel, txt),
        Grammar::Recur => match root {
            Some(body) => {
                if fuel > 0 {
                    interpret(body, root, fuel - 1, txt)
                } else {
                    Err(("refl: too deep", txt))
                }
            },
            None => Err(("refl: not installed", txt)),
        },
    }
}

/// What the parser `r` makes of the whole input `txt`. A nest of `Recur` as
/// deep as the input is long has stopped consuming input, so the length of
/// the input is all the fuel that a parse can use.
pub open spec fn outcome<M: Mapper>(r: Rule<M>, txt: Seq<char>) -> Outcome<<M::Out as View>::V> {
    run(r, None, txt.len(), txt)
}

/// The descriptions of a sequence of parsers, in order.
pub open spec fn rules_of<M>(ps: Seq<RcParser<M>>) -> Seq<Rule<M>> {
    Seq::new(ps.len(), |i: int| ps[i]@)
}

/// Anything that can be run on an input and composed with other parsers.
pub trait Parser<M: Mapper>: Sized {
    /// The description of the parser.
    spec fn rule(&self) -> Rule<M>;

    /// Runs the parser on `txt`.
    fn parse<'a>(&self, txt: &'a [char]) -> (r: ParseResult<'a, Value<M::Out>>)
        requires
            closed(self.rule(), false),
        ensures
            answers(r, outcome(self.rule(), txt@)),
    ;

    /// A shared handle to the parser.
    fn as_rc(self) -> (r: RcParser<M>)
        ensures
            r@ == self.rule(),
    ;

    /// This parser, then `right`; the result pairs both values.
    fn both(&self, right: RcParser<M>) -> (r: RcParser<M>)
        ensures
            r@ == Rule::Both(Box::new(self.rule()), Box::new(right@)),
    ;

    /// This parser, then `right`; the result is this parser's value.
    fn left(&self, right: RcParser<M>) -> (r: RcParser<M>)
        ensures
            r@ == Rule::Left(Box::new(self.rule()), Box::new(right@)),
    ;

    /// This parser, then `right`; the result is the value of `right`.
    fn right(&self, right: RcParser<M>) -> (r: RcParser<M>)
        ensures
            r@ == Rule::Right(Box::new(self.rule()), Box::new(right@)),
    ;

    /// This parser, with `mapper` applied to its value.
    fn map(&self, mapper: M) -> (r: RcParser<M>)
        ensures
            r@ == Rule::Mapped(Box::new(self.rule()), mapper),
    ;

    /// This parser, repeated one or more times.
    fn all(self) -> (r: RcParser<M>)
        ensures
            r@ == Rule::All(Box::new(self.rule())),
    ;
}

impl<M: Mapper> Parser<M> for RcParser<M> {
    open spec fn rule(&self) -> Rule<M> {
        self@
    }

    fn parse<'a>(&self, txt: &'a [char]) -> (r: ParseResult<'a, Value<M::Out>>) {
        interpret(&**self, None, txt.len(), txt)
    }

    fn as_rc(self) -> (r: RcParser<M>) {
        self
    }

    fn both(&self, right: RcParser<M>) -> (r: RcParser<M>) {
        Rc::new(Grammar::Both(share(self), right))
    }

    fn left(&self, right: RcParser<M>) -> (r: RcParser<M>) {
        Rc::new(Grammar::Left(share(self), right))
    }

    fn right(&self, right: RcParser<M>) -> (r: RcParser<M>) {
        Rc::new(Grammar::Right(share(self), right))
    }

    fn map(&self, mapper: M) -> (r: RcParser<M>) {
        Rc::new(Grammar::Mapped(share(self), mapper))
    }

    fn all(self) -> (r: RcParser<M>) {
        Rc::new(Grammar::All(self))
    }
}

/// A parser that matches the character `ch` and nothing else.
pub fn p_char<M: Mapper>(ch: char) -> (r: RcParser<M>)
    ensures
        r@ == Rule::<M>::Char(ch),
{
    Rc::new(Grammar::Char(ch))
}

/// A parser that matches the characters of `string`.
pub fn p_str<M: Mapper>(string: &str) -> (r: RcParser<M>)
    ensures
        r@ == Rule::<M>::Str(string@),
{
    Rc::new(Grammar::Str(chars_of(string)))
}

/// A parser that runs `first`, then `second`, and pairs their values.
pub fn both<M: Mapper, A: Parser<M>, B: Parser<M>>(first: A, second: B) -> (r: RcParser<M>)
    ensures
        r@ == Rule::Both(Box::new(first.rule()), Box::new(second.rule())),
{
    Rc::new(Grammar::Both(first.as_rc(), second.as_rc()))
}

/// A parser that runs `first`, then `second`, and keeps the value of `first`.
pub fn left<M: Mapper, A: Parser<M>, B: Parser<M>>(first: A, second: B) -> (r: RcParser<M>)
    ensures
        r@ == Rule::Left(Box::new(first.rule()), Box::new(second.rule())),
{
    Rc::new(Grammar::Left(first.as_rc(), second.as_rc()))
}

/// A parser that runs `first`, then `second`, and keeps the value of `second`.
pub fn right<M: Mapper, A: Parser<M>, B: Parser<M>>(first: A, second: B) -> (r: RcParser<M>)
    ensures
        r@ == Rule::Right(Box::new(first.rule()), Box::new(second.rule())),
{
    Rc::new(Grammar::Right(first.as_rc(), second.as_rc()))
}

/// A parser that runs `parser` and applies `mapper` to its value.
pub fn map_parser<M: Mapper, A: Parser<M>>(parser: A, mapper: M) -> (r: RcParser<M>)
    ensures
        r@ == Rule::Mapped(Box::new(parser.rule()), mapper),
{
    Rc::new(Grammar::Mapped(parser.as_rc(), mapper))
}

/// A parser that repeats `parser` until it fails or stops consuming input,
/// and succeeds if it matched at least once.
pub fn all<M: Mapper>(parser: RcParser<M>) -> (r: RcParser<M>)
    ensures
        r@ == Rule::All(Box::new(parser@)),
{
    Rc::new(Grammar::All(parser))
}

/// A parser that tries each of `parsers` on the same input, in order, and
/// takes the first that succeeds.
pub fn any<M: Mapper>(parsers: Vec<RcParser<M>>) -> (r: RcParser<M>)
    ensures
        r@ == Rule::Any(rules_of(parsers@)),
{
    let ghost rules = rules_of(parsers@);
    let r = Rc::new(Grammar::Any(parsers));
    assert(r@->Any_0 =~= rules);
    r
}

/// A parser whose definition refers to itself. `scope` is handed the
/// placeholder that stands for the parser being defined, and returns its body.
pub fn refl_parser<M: Mapper, S: FnOnce(RcParser<M>) -> RcParser<M>>(scope: S) -> (r: RcParser<M>)
    requires
        forall|cell: RcParser<M>| cell@ == Rule::<M>::Recur ==> call_requires(scope, (cell,)),
    ensures
        exists|cell: RcParser<M>, body: RcParser<M>|
            cell@ == Rule::<M>::Recur && call_ensures(scope, (cell,), body) && r@ == Rule::Refl(
                Box::new(body@),
            ),
{
    let cell: RcParser<M> = Rc::new(Grammar::Recur);
    assert(cell@ == Rule::<M>::Recur);
    let body = scope(cell);
    Rc::new(Grammar::Refl(body))
}

/// A parser that matches one or more characters of the word alphabet and
/// gives them as a string.
pub fn p_string<M: Mapper>() -> (r: RcParser<M>)
    ensures
        r@ == Rule::<M>::Word,
{
    Rc::new(Grammar::Word)
}

/// A parser that matches one or more decimal digits and gives their number.
pub fn p_int<M: Mapper>() -> (r: RcParser<M>)
    ensures
        r@ == Rule::<M>::Int,
{
    Rc::new(Grammar::Int)
}

/// A parser that skips whitespace and gives the number of characters skipped.
/// It never fails.
pub fn spaces<M: Mapper>() -> (r: RcParser<M>)
    ensures
        r@ == Rule::<M>::Spaces,
{
    Rc::new(Grammar::Spaces)
}

} // verus!
