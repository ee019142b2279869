//! The environment and the memoization cache of the evaluator: finite maps
//! kept as lists of entries with distinct keys.
use crate::expr::{same_exprs, terms, Expr, Term};
use vstd::prelude::*;

verus! {

/// The mathematical value of an environment: what each bound name stands for.
pub type Bindings = Map<Seq<char>, Term>;

/// What identifies a call: the function's name and the values of its
/// arguments.
pub type CallKey = (Seq<char>, Seq<Term>);

/// The mathematical value of a memoization cache: the result of each call
/// that it remembers.
pub type Cache = Map<CallKey, Term>;

/// The map that a list of entries stands for. Where a key occurs twice, the
/// later entry counts.
pub open spec fn assoc<K, V>(s: Seq<(K, V)>) -> Map<K, V>
    decreases s.len(),
{
    if s.len() == 0 {
        Map::empty()
    } else {
        assoc(s.drop_last()).insert(s.last().0, s.last().1)
    }
}

/// Whether no key occurs twice in a list of entries.
pub open spec fn distinct_keys<K, V>(s: Seq<(K, V)>) -> bool {
    forall|i: int, j: int| 0 <= i < j < s.len() ==> s[i].0 != s[j].0
}

/// The keys of the map are the keys of the entries.
pub proof fn lemma_assoc_dom<K, V>(s: Seq<(K, V)>, k: K)
    ensures
        assoc(s).dom().finite(),
        assoc(s).contains_key(k) <==> exists|i: int| 0 <= i < s.len() && (#[trigger] s[i]).0 == k,
    decreases s.len(),
{
    if s.len() > 0 {
        let front = s.drop_last();
        lemma_assoc_dom(front, k);
        if assoc(s).contains_key(k) {
            if s.last().0 == k {
                assert(s[s.len() - 1].0 == k);
            } else {
                let i = choose|i: int| 0 <= i < front.len() && (#[trigger] front[i]).0 == k;
                assert(s[i].0 == k);
            }
        }
        if exists|i: int| 0 <= i < s.len() && (#[trigger] s[i]).0 == k {
            let i = choose|i: int| 0 <= i < s.len() && (#[trigger] s[i]).0 == k;
            if i < s.len() - 1 {
                assert(front[i].0 == k);
            }
        }
    }
}

/// With distinct keys, the map gives each entry's key that entry's value, and
/// has as many keys as there are entries.
pub proof fn lemma_assoc_at<K, V>(s: Seq<(K, V)>, i: int)
    requires
        distinct_keys(s),
        0 <= i < s.len(),
    ensures
        assoc(s).contains_key(s[i].0),
        assoc(s)[s[i].0] == s[i].1,
        assoc(s).dom().len() == s.len(),
    decreases s.len(),
{
    let front = s.drop_last();
    lemma_assoc_dom(front, s.last().0);
    if exists|j: int| 0 <= j < front.len() && (#[trigger] front[j]).0 == s.last().0 {
        let j = choose|j: int| 0 <= j < front.len() && (#[trigger] front[j]).0 == s.last().0;
        assert(s[j].0 == s[s.len() - 1].0);
    }
    if front.len() > 0 {
        lemma_assoc_at(front, if i < front.len() { i } else { 0 });
    }
    if i < s.len() - 1 {
        assert(front[i] == s[i]);
    }
}

/// Replacing the value of an entry replaces the value of its key.
pub proof fn lemma_assoc_update<K, V>(s: Seq<(K, V)>, i: int, v: V)
    requires
        distinct_keys(s),
        0 <= i < s.len(),
    ensures
        assoc(s.update(i, (s[i].0, v))) == assoc(s).insert(s[i].0, v),
    decreases s.len(),
{
    let t = s.update(i, (s[i].0, v));
    if i == s.len() - 1 {
        assert(t.drop_last() =~= s.drop_last());
        assert(assoc(t) =~= assoc(s).insert(s[i].0, v));
    } else {
        lemma_assoc_update(s.drop_last(), i, v);
        assert(t.drop_last() =~= s.drop_last().update(i, (s[i].0, v)));
        assert(s[i].0 != s[s.len() - 1].0);
        assert(assoc(t) =~= assoc(s).insert(s[i].0, v));
    }
}

/// Adding an entry at the end binds its key.
pub proof fn lemma_assoc_push<K, V>(s: Seq<(K, V)>, k: K, v: V)
    ensures
        assoc(s.push((k, v))) == assoc(s).insert(k, v),
{
    assert(s.push((k, v)).drop_last() =~= s);
}

/// A mapping from names to values.
pub struct Env {
    entries: Vec<(String, Expr)>,
}

impl Env {
    /// The entries as pairs of mathematical values.
    spec fn pairs(&self) -> Seq<(Seq<char>, Term)> {
        Seq::new(self.entries@.len(), |i: int| (self.entries@[i].0@, self.entries@[i].1@))
    }

    #[verifier::type_invariant]
    spec fn inv(&self) -> bool {
        distinct_keys(self.pairs())
    }

    /// An environment that binds nothing.
    pub fn new() -> (e: Env)
        ensures
            e@ == Map::<Seq<char>, Term>::empty(),
    {
        let e = Env { entries: Vec::new() };
        assert(e.pairs() =~= Seq::empty());
        e
    }

    /// Where `name` is bound among the entries, if it is.
    fn position(&self, name: &String) -> (r: Option<usize>)
        ensures
            match r {
                Some(i) => i < self.pairs().len() && self.pairs()[i as int].0 == name@,
                None => forall|i: int| 0 <= i < self.pairs().len() ==> self.pairs()[i].0 != name@,
            },
    {
        let mut i: usize = 0;
        while i < self.entries.len()
            invariant
                i <= self.entries.len(),
                self.pairs().len() == self.entries.len(),
                forall|j: int| 0 <= j < i ==> self.pairs()[j].0 != name@,
            decreases self.entries.len() - i,
        {
            if self.entries[i].0 == *name {
                return Some(i);
            }
            i += 1;
        }
        None
    }

    /// The value that `name` is bound to, if it is bound.
    pub fn get(&self, name: &String) -> (r: Option<&Expr>)
        ensures
            match r {
                Some(e) => self@.contains_key(name@) && e@ == self@[name@],
                None => !self@.contains_key(name@),
            },
    {
        proof {
            use_type_invariant(self);
            lemma_assoc_dom(self.pairs(), name@);
        }
        match self.position(name) {
            Some(i) => {
                proof {
                    lemma_assoc_at(self.pairs(), i as int);
                }
                Some(&self.entries[i].1)
            },
            None => None,
        }
    }

    /// Tells whether `name` is bound.
    pub fn contains_key(&self, name: &String) -> (r: bool)
        ensures
            r == self@.contains_key(name@),
    {
        self.get(name).is_some()
    }

    /// Binds `name` to `value`, in place of what it was bound to before.
    pub fn insert(&mut self, name: String, value: Expr)
        ensures
            final(self)@ == old(self)@.insert(name@, value@),
    {
        proof {
            use_type_invariant(&*self);
        }
        let ghost before = self.pairs();
        let found = self.position(&name);
        let mut entries: Vec<(String, Expr)> = Vec::new();
        core::mem::swap(&mut self.entries, &mut entries);
        match found {
            Some(i) => {
                entries.set(i, (name, value));
            },
            None => {
                entries.push((name, value));
            },
        }
        proof {
            let after = Seq::new(entries@.len(), |i: int| (entries@[i].0@, entries@[i].1@));
            match found {
                Some(i) => {
                    assert(after =~= before.update(i as int, (before[i as int].0, value@)));
                    lemma_assoc_update(before, i as int, value@);
                },
                None => {
                    assert(after =~= before.push((name@, value@)));
                    lemma_assoc_push(before, name@, value@);
                },
            }
        }
        core::mem::swap(&mut self.entries, &mut entries);
    }

    /// The number of names that are bound.
    pub fn len(&self) -> (n: usize)
        ensures
            n == self@.len(),
    {
        proof {
            use_type_invariant(self);
            if self.pairs().len() > 0 {
                lemma_assoc_at(self.pairs(), 0);
            }
        }
        self.entries.len()
    }
}

impl View for Env {
    type V = Bindings;

    closed spec fn view(&self) -> Bindings {
        assoc(self.pairs())
    }
}

impl Clone for Env {
    /// A snapshot: an environment of its own with the same bindings.
    fn clone(&self) -> (r: Env)
        ensures
            r@ == self@,
    {
        proof {
            use_type_invariant(self);
        }
        let mut entries: Vec<(String, Expr)> = Vec::new();
        let mut i: usize = 0;
        while i < self.entries.len()
            invariant
                i <= self.entries.len(),
                entries.len() == i,
                forall|j: int|
                    0 <= j < i ==> entries[j].0@ == self.entries[j].0@ && entries[j].1@
                        == self.entries[j].1@,
            decreases self.entries.len() - i,
        {
            entries.push((self.entries[i].0.clone(), self.entries[i].1.clone()));
            i += 1;
        }
        let ghost pairs = Seq::new(entries@.len(), |i: int| (entries@[i].0@, entries@[i].1@));
        assert(pairs =~= self.pairs());
        let r = Env { entries };
        assert(r.pairs() =~= self.pairs());
        r
    }
}

/// The results of calls that were evaluated before, by the function's name
/// and the values of the arguments.
pub struct Memo {
    entries: Vec<(String, Vec<Expr>, Expr)>,
}

impl Memo {
    /// The entries as pairs of mathematical values.
    spec fn pairs(&self) -> Seq<(CallKey, Term)> {
        Seq::new(
            self.entries@.len(),
            |i: int| ((self.entries@[i].0@, terms(self.entries@[i].1@)), self.entries@[i].2@),
        )
    }

    #[verifier::type_invariant]
    spec fn inv(&self) -> bool {
        distinct_keys(self.pairs())
    }

    /// A cache that remembers nothing.
    pub fn new() -> (m: Memo)
        ensures
            m@ == Map::<CallKey, Term>::empty(),
    {
        let m = Memo { entries: Vec::new() };
        assert(m.pairs() =~= Seq::empty());
        m
    }

    /// Where the call is among the entries, if it is.
    fn position(&self, name: &String, args: &Vec<Expr>) -> (r: Option<usize>)
        ensures
            match r {
                Some(i) => i < self.pairs().len() && self.pairs()[i as int].0 == (
                    name@,
                    terms(args@),
                ),
                None => forall|i: int|
                    0 <= i < self.pairs().len() ==> self.pairs()[i].0 != (name@, terms(args@)),
            },
    {
        let mut i: usize = 0;
        while i < self.entries.len()
            invariant
                i <= self.entries.len(),
                self.pairs().len() == self.entries.len(),
                forall|j: int| 0 <= j < i ==> self.pairs()[j].0 != (name@, terms(args@)),
            decreases self.entries.len() - i,
        {
            if self.entries[i].0 == *name && same_exprs(&self.entries[i].1, args) {
                return Some(i);
            }
            i += 1;
        }
        None
    }

    /// The remembered result of the call of `name` on `args`, if there is one.
    pub fn get(&self, name: &String, args: &Vec<Expr>) -> (r: Option<&Expr>)
        ensures
            match r {
                Some(e) => self@.contains_key((name@, terms(args@))) && e@ == self@[(
                    name@,
                    terms(args@),
                )],
                None => !self@.contains_key((name@, terms(args@))),
            },
    {
        proof {
            use_type_invariant(self);
            lemma_assoc_dom(self.pairs(), (name@, terms(args@)));
        }
        match self.position(name, args) {
            Some(i) => {
                proof {
                    lemma_assoc_at(self.pairs(), i as int);
                }
                Some(&self.entries[i].2)
            },
            None => None,
        }
    }

    /// Remembers `value` as the result of the call of `name` on `args`, unless
    /// a result of that call is remembered already.
    pub fn insert_absent(&mut self, name: String, args: Vec<Expr>, value: Expr)
        ensures
            final(self)@ == if old(self)@.contains_key((name@, terms(args@))) {
                old(self)@
            } else {
                old(self)@.insert((name@, terms(args@)), value@)
            },
    {
        proof {
            use_type_invariant(&*self);
            lemma_assoc_dom(self.pairs(), (name@, terms(args@)));
        }
        let ghost before = self.pairs();
        if self.position(&name, &args).is_none() {
            let mut entries: Vec<(String, Vec<Expr>, Expr)> = Vec::new();
            core::mem::swap(&mut self.entries, &mut entries);
            entries.push((name, args, value));
            proof {
                let after = Seq::new(
                    entries@.len(),
                    |i: int| ((entries@[i].0@, terms(entries@[i].1@)), entries@[i].2@),
                );
                assert(after =~= before.push(((name@, terms(args@)), value@)));
                lemma_assoc_push(before, (name@, terms(args@)), value@);
            }
            core::mem::swap(&mut self.entries, &mut entries);
        }
    }

    /// The number of calls whose result is remembered.
    pub fn len(&self) -> (n: usize)
        ensures
            n == self@.len(),
    {
        proof {
            use_type_invariant(self);
            if self.pairs().len() > 0 {
                lemma_assoc_at(self.pairs(), 0);
            }
        }
        self.entries.len()
    }
}

impl View for Memo {
    type V = Cache;

    closed spec fn view(&self) -> Cache {
        assoc(self.pairs())
    }
}

} // verus!
