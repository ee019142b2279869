//! Conversions between strings and sequences of characters.
use vstd::prelude::*;

verus! {

/// Appends `c` to the end of `s`.
///
/// Trusted: the body calls `String::push` of std, and nothing is proved of it.
/// The contract states what std documents of that call: the string afterwards
/// is the string before with `c` behind its last character.
#[verifier::external_body]
fn push_char(s: &mut String, c: char)
    ensures
        final(s)@ == old(s)@.push(c),
{
    s.push(c)
}

/// The string made of the characters of `chars`.
pub fn string_of(chars: &[char]) -> (s: String)
    ensures
        s@ == chars@,
{
    let mut s = String::new();
    let mut i: usize = 0;
    while i < chars.len()
        invariant
            i <= chars.len(),
            s@ == chars@.take(i as int),
        decreases chars.len() - i,
    {
        push_char(&mut s, chars[i]);
        i += 1;
        assert(s@ =~= chars@.take(i as int));
    }
    assert(chars@.take(chars.len() as int) =~= chars@);
    s
}

/// The characters of `s`.
pub fn chars_of(s: &str) -> (v: Vec<char>)
    ensures
        v@ == s@,
{
    let n = s.unicode_len();
    let mut v: Vec<char> = Vec::new();
    let mut i: usize = 0;
    while i < n
        invariant
            n == s@.len(),
            i <= n,
            v@ == s@.take(i as int),
        decreases n - i,
    {
        v.push(s.get_char(i));
        i += 1;
        assert(v@ =~= s@.take(i as int));
    }
    assert(s@.take(n as int) =~= s@);
    v
}

/// Tells whether `s` and `word` hold the same characters.
pub fn text_is(s: &str, word: &str) -> (b: bool)
    ensures
        b == (s@ == word@),
{
    let n = s.unicode_len();
    if n != word.unicode_len() {
        return false;
    }
    let mut i: usize = 0;
    while i < n
        invariant
            n == s@.len(),
            n == word@.len(),
            i <= n,
            s@.take(i as int) == word@.take(i as int),
        decreases n - i,
    {
        if s.get_char(i) != word.get_char(i) {
            return false;
        }
        i += 1;
        assert(s@.take(i as int) =~= s@.take(i - 1).push(s@[i - 1]));
        assert(word@.take(i as int) =~= word@.take(i - 1).push(word@[i - 1]));
    }
    assert(s@.take(n as int) =~= s@);
    assert(word@.take(n as int) =~= word@);
    true
}

} // verus!
