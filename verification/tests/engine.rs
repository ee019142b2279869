use minilisp::parser_combinators::{
    all, any, both, is_closed, left, map_parser, p_char, p_int, p_str, p_string, refl_parser, right, spaces,
    Grammar, Identity, ParseResult, Parser, RcParser, Value,
};

type P = RcParser<Identity>;

fn chars(s: &str) -> Vec<char> {
    s.chars().collect()
}

fn text(cs: &[char]) -> String {
    cs.iter().collect()
}

fn rest_of(r: &ParseResult<Value<()>>) -> String {
    match r {
        Ok(found) => text(found.txt),
        Err((_, at)) => text(at),
    }
}

fn reason_of(r: &ParseResult<Value<()>>) -> &'static str {
    match r {
        Ok(_) => "",
        Err((why, _)) => match *why {
            "no char" => "no char",
            "no str" => "no str",
            "all: no matches" => "all: no matches",
            "any: no matches" => "any: no matches",
            "int: out of range" => "int: out of range",
            "refl: too deep" => "refl: too deep",
            _ => "another reason",
        },
    }
}

#[test]
fn char_matches_first_character() {
    let txt = chars("abc");
    let p: P = p_char('a');
    let r = p.parse(&txt);
    assert!(matches!(r, Ok(ref found) if matches!(found.res, Value::Char('a'))));
    assert_eq!(rest_of(&r), "bc");
}

#[test]
fn char_fails_without_consuming() {
    let txt = chars("abc");
    let p: P = p_char('b');
    let r = p.parse(&txt);
    assert_eq!(reason_of(&r), "no char");
    assert_eq!(rest_of(&r), "abc");
    let empty = chars("");
    let r = p.parse(&empty);
    assert_eq!(reason_of(&r), "no char");
    assert_eq!(rest_of(&r), "");
}

#[test]
fn str_matches_prefix() {
    let txt = chars("hello world");
    let p: P = p_str("hello");
    let r = p.parse(&txt);
    assert!(matches!(r, Ok(ref found) if matches!(&found.res, Value::Str(s) if s == "hello")));
    assert_eq!(rest_of(&r), " world");
}

#[test]
fn str_fails_on_other_prefix_and_short_input() {
    let p: P = p_str("hello");
    let txt = chars("help");
    let r = p.parse(&txt);
    assert_eq!(reason_of(&r), "no str");
    assert_eq!(rest_of(&r), "help");
    let txt = chars("hell");
    let r = p.parse(&txt);
    assert_eq!(reason_of(&r), "no str");
}

#[test]
fn str_of_no_characters_matches_everywhere() {
    let p: P = p_str("");
    let txt = chars("xyz");
    let r = p.parse(&txt);
    assert!(matches!(r, Ok(ref found) if matches!(&found.res, Value::Str(s) if s.is_empty())));
    assert_eq!(rest_of(&r), "xyz");
}

#[test]
fn str_matches_characters_outside_ascii() {
    let p: P = p_str("héllo→");
    let txt = chars("héllo→!");
    let r = p.parse(&txt);
    assert!(matches!(r, Ok(ref found) if matches!(&found.res, Value::Str(s) if s == "héllo→")));
    assert_eq!(rest_of(&r), "!");
}

#[test]
fn int_folds_digits() {
    let p: P = p_int();
    let txt = chars("1234 rest");
    let r = p.parse(&txt);
    assert!(matches!(r, Ok(ref found) if matches!(found.res, Value::Int(1234))));
    assert_eq!(rest_of(&r), " rest");
    let txt = chars("007");
    let r = p.parse(&txt);
    assert!(matches!(r, Ok(ref found) if matches!(found.res, Value::Int(7))));
}

#[test]
fn int_fails_without_digits() {
    let p: P = p_int();
    let txt = chars("x12");
    let r = p.parse(&txt);
    assert_eq!(reason_of(&r), "all: no matches");
    assert_eq!(rest_of(&r), "x12");
}

#[test]
fn int_takes_the_largest_and_refuses_the_next() {
    let p: P = p_int();
    let txt = chars("9223372036854775807");
    let r = p.parse(&txt);
    assert!(matches!(r, Ok(ref found) if matches!(found.res, Value::Int(i64::MAX))));
    let txt = chars("9223372036854775808");
    let r = p.parse(&txt);
    assert_eq!(reason_of(&r), "int: out of range");
    assert_eq!(rest_of(&r), "9223372036854775808");
    let txt = chars("99999999999999999999999999");
    let r = p.parse(&txt);
    assert_eq!(reason_of(&r), "int: out of range");
}

#[test]
fn word_takes_its_alphabet() {
    let p: P = p_string();
    let txt = chars("ab*z+9 next");
    let r = p.parse(&txt);
    assert!(matches!(r, Ok(ref found) if matches!(&found.res, Value::Str(s) if s == "ab*z+9")));
    assert_eq!(rest_of(&r), " next");
}

#[test]
fn word_stops_at_the_edges_of_its_alphabet() {
    let p: P = p_string();
    let txt = chars("a)b");
    let r = p.parse(&txt);
    assert!(matches!(r, Ok(ref found) if matches!(&found.res, Value::Str(s) if s == "a")));
    let txt = chars("a{b");
    let r = p.parse(&txt);
    assert!(matches!(r, Ok(ref found) if matches!(&found.res, Value::Str(s) if s == "a")));
    let txt = chars("(a");
    let r = p.parse(&txt);
    assert_eq!(reason_of(&r), "all: no matches");
    assert_eq!(rest_of(&r), "(a");
}

#[test]
fn spaces_counts_and_never_fails() {
    let p: P = spaces();
    let txt = chars(" \t\r\n x ");
    let r = p.parse(&txt);
    assert!(matches!(r, Ok(ref found) if matches!(found.res, Value::Count(5))));
    assert_eq!(rest_of(&r), "x ");
    let txt = chars("x");
    let r = p.parse(&txt);
    assert!(matches!(r, Ok(ref found) if matches!(found.res, Value::Count(0))));
    assert_eq!(rest_of(&r), "x");
    let txt = chars("");
    let r = p.parse(&txt);
    assert!(matches!(r, Ok(ref found) if matches!(found.res, Value::Count(0))));
}

#[test]
fn both_pairs_the_values() {
    let p: P = both(p_char::<Identity>('a'), p_int::<Identity>());
    let txt = chars("a12b");
    let r = p.parse(&txt);
    match &r {
        Ok(found) => match &found.res {
            Value::Pair(x, y) => {
                assert!(matches!(**x, Value::Char('a')));
                assert!(matches!(**y, Value::Int(12)));
            }
            _ => panic!("no pair"),
        },
        Err(_) => panic!("failed"),
    }
    assert_eq!(rest_of(&r), "b");
}

#[test]
fn both_fails_where_the_second_fails() {
    let p: P = both(p_char::<Identity>('a'), p_char::<Identity>('b'));
    let txt = chars("ac");
    let r = p.parse(&txt);
    assert_eq!(reason_of(&r), "no char");
    assert_eq!(rest_of(&r), "c");
    let txt = chars("xb");
    let r = p.parse(&txt);
    assert_eq!(rest_of(&r), "xb");
}

#[test]
fn left_and_right_keep_one_value() {
    let l: P = left(p_char::<Identity>('a'), p_char::<Identity>('b'));
    let r: P = right(p_char::<Identity>('a'), p_char::<Identity>('b'));
    let txt = chars("abc");
    let got = l.parse(&txt);
    assert!(matches!(got, Ok(ref found) if matches!(found.res, Value::Char('a'))));
    assert_eq!(rest_of(&got), "c");
    let got = r.parse(&txt);
    assert!(matches!(got, Ok(ref found) if matches!(found.res, Value::Char('b'))));
    assert_eq!(rest_of(&got), "c");
}

#[test]
fn methods_build_what_the_functions_build() {
    let a: P = p_char('a');
    let b: P = p_char('b');
    let txt = chars("abab");
    let got = a.both(b.clone()).parse(&txt);
    assert!(matches!(got, Ok(ref found) if matches!(found.res, Value::Pair(_, _))));
    let got = a.left(b.clone()).parse(&txt);
    assert!(matches!(got, Ok(ref found) if matches!(found.res, Value::Char('a'))));
    let got = a.right(b.clone()).parse(&txt);
    assert!(matches!(got, Ok(ref found) if matches!(found.res, Value::Char('b'))));
    let got = a.map(Identity).parse(&txt);
    assert!(matches!(got, Ok(ref found) if matches!(found.res, Value::Char('a'))));
    let got = a.both(b).all().parse(&txt);
    assert!(matches!(got, Ok(ref found) if matches!(&found.res, Value::Many(v) if v.len() == 2)));
    assert_eq!(rest_of(&got), "");
    let got = a.as_rc().parse(&txt);
    assert_eq!(rest_of(&got), "bab");
}

#[test]
fn map_passes_failures_through() {
    let p: P = map_parser(p_char::<Identity>('a'), Identity);
    let txt = chars("ba");
    let r = p.parse(&txt);
    assert_eq!(reason_of(&r), "no char");
    assert_eq!(rest_of(&r), "ba");
}

#[test]
fn all_collects_one_or_more() {
    let p: P = all(p_char('a'));
    let txt = chars("aaab");
    let r = p.parse(&txt);
    assert!(matches!(r, Ok(ref found) if matches!(&found.res, Value::Many(v) if v.len() == 3)));
    assert_eq!(rest_of(&r), "b");
}

#[test]
fn all_fails_on_zero_matches() {
    let p: P = all(p_char('a'));
    let txt = chars("baa");
    let r = p.parse(&txt);
    assert_eq!(reason_of(&r), "all: no matches");
    assert_eq!(rest_of(&r), "baa");
}

#[test]
fn all_ends_where_nothing_is_consumed() {
    let p: P = all(spaces());
    let txt = chars("  x");
    let r = p.parse(&txt);
    assert!(matches!(r, Ok(ref found) if matches!(&found.res, Value::Many(v) if v.len() == 1)));
    assert_eq!(rest_of(&r), "x");
    let txt = chars("x");
    let r = p.parse(&txt);
    assert_eq!(reason_of(&r), "all: no matches");
    assert_eq!(rest_of(&r), "x");
}

#[test]
fn any_takes_the_first_success() {
    let p: P = any(vec![p_str("ab"), p_str("a"), p_str("abc")]);
    let txt = chars("abc");
    let r = p.parse(&txt);
    assert!(matches!(r, Ok(ref found) if matches!(&found.res, Value::Str(s) if s == "ab")));
    assert_eq!(rest_of(&r), "c");
}

#[test]
fn any_fails_where_all_fail() {
    let p: P = any(vec![p_str("x"), p_char('y')]);
    let txt = chars("abc");
    let r = p.parse(&txt);
    assert_eq!(reason_of(&r), "any: no matches");
    assert_eq!(rest_of(&r), "abc");
    let none: P = any(Vec::new());
    let r = none.parse(&txt);
    assert_eq!(reason_of(&r), "any: no matches");
}

#[test]
fn any_backtracks_to_the_unmodified_input() {
    let txt = chars("abcddefg0");
    let first: P = p_char::<Identity>('a')
        .both(p_char('b'))
        .left(p_char('c'))
        .left(p_char('x'));
    let alone = first.parse(&txt);
    assert_eq!(reason_of(&alone), "no char");
    assert_eq!(rest_of(&alone), "ddefg0");
    let p: P = any(vec![first, p_str("abcdd")]);
    let r = p.parse(&txt);
    assert!(matches!(r, Ok(ref found) if matches!(&found.res, Value::Str(s) if s == "abcdd")));
    assert_eq!(rest_of(&r), "efg0");
}

#[test]
fn sequence_then_alternation() {
    let txt = chars("abcddefg0");
    let head: P = p_char::<Identity>('a').both(p_char('b')).left(p_char('c'));
    let tail: P = any(vec![p_str("dx"), p_str("dde")]);
    let p = both(head, tail);
    let r = p.parse(&txt);
    assert!(r.is_ok());
    assert_eq!(rest_of(&r), "fg0");
}

fn nest(cell: P) -> P {
    any(vec![
        p_char::<Identity>('(').right(cell).left(p_char(')')),
        p_char('x'),
    ])
}

#[test]
fn refl_parses_nested_brackets() {
    let p: P = refl_parser(nest);
    let txt = chars("(((x)))!");
    let r = p.parse(&txt);
    assert!(matches!(r, Ok(ref found) if matches!(found.res, Value::Char('x'))));
    assert_eq!(rest_of(&r), "!");
    let txt = chars("((x)");
    let r = p.parse(&txt);
    assert_eq!(reason_of(&r), "any: no matches");
    assert_eq!(rest_of(&r), "((x)");
}

#[test]
fn refl_stops_recursion_that_consumes_nothing() {
    let p: P = refl_parser(|cell: P| cell);
    let txt = chars("abc");
    let r = p.parse(&txt);
    assert_eq!(reason_of(&r), "refl: too deep");
    assert_eq!(rest_of(&r), "abc");
}

#[test]
fn a_parser_is_closed_where_each_self_reference_is_bound() {
    let plain: P = both(p_char::<Identity>('a'), all(p_str("b")));
    assert!(is_closed(&plain, false));
    let nested: P = refl_parser(nest);
    assert!(is_closed(&nested, false));
    let cell: P = std::rc::Rc::new(Grammar::Recur);
    assert!(!is_closed(&cell, false));
    assert!(is_closed(&cell, true));
    let open: P = any(vec![p_char('a'), p_char::<Identity>('(').right(cell.clone())]);
    assert!(!is_closed(&open, false));
    let bound: P = all(std::rc::Rc::new(Grammar::Refl(open)));
    assert!(is_closed(&bound, false));
}
