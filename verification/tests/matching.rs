use lexmatch::expression::Expression;
use lexmatch::recognizer::Recognizer;

#[test]
fn longest_match_wins() {
    let r = Recognizer::new(vec![
        Expression::satisfy(|c| c == b'a').star(),
        Expression::satisfy(|c| c == b'b'),
    ]);
    assert_eq!(r.find(b"aaab"), Some((0, 0..3)));
}

#[test]
fn nullable_rule_accepts_empty_prefix() {
    let r = Recognizer::new(vec![Expression::satisfy(|c| c.is_ascii_digit()).star()]);
    assert_eq!(r.find(b"x"), Some((0, 0..0)));
}

#[test]
fn no_match_is_none() {
    let r = Recognizer::new(vec![Expression::satisfy(|c| c == b'b')]);
    assert_eq!(r.find(b"a"), None);
}

#[test]
fn concatenation_covers_repetition() {
    let r = Recognizer::new(vec![Expression::satisfy(|c| c.is_ascii_alphabetic())
        .and(Expression::satisfy(|c| c.is_ascii_digit()).star())]);
    assert_eq!(r.find(b"a123b"), Some((0, 0..4)));
}

#[test]
fn tie_break_takes_lowest_rule_index() {
    let r = Recognizer::new(vec![
        Expression::satisfy(|_c| true).star(),
        Expression::satisfy(|_c| true),
    ]);
    assert_eq!(r.find(b"z"), Some((0, 0..1)));
}

#[test]
fn alternation_matches_either_side() {
    let r = Recognizer::new(vec![
        Expression::satisfy(|c| c == b'a').or(Expression::satisfy(|c| c == b'b'))
    ]);
    assert_eq!(r.find(b"a"), Some((0, 0..1)));
    assert_eq!(r.find(b"b"), Some((0, 0..1)));
    assert_eq!(r.find(b"c"), None);
}

#[test]
fn later_rule_matches_under_its_own_index() {
    let r = Recognizer::new(vec![
        Expression::satisfy(|c| c == b'a'),
        Expression::satisfy(|c| c == b'b'),
    ]);
    assert_eq!(r.find(b"b"), Some((1, 0..1)));
}

#[test]
fn concatenation_needs_both_parts() {
    let r = Recognizer::new(vec![
        Expression::satisfy(|c| c == b'a').and(Expression::satisfy(|c| c == b'b'))
    ]);
    assert_eq!(r.find(b"ab"), Some((0, 0..2)));
    assert_eq!(r.find(b"a"), None);
    assert_eq!(r.find(b"abab"), Some((0, 0..2)));
}

#[test]
fn empty_input_without_nullable_rule() {
    let r = Recognizer::new(vec![Expression::satisfy(|c| c == b'a')]);
    assert_eq!(r.find(b""), None);
}

#[test]
fn empty_input_with_nullable_rule() {
    let r = Recognizer::new(vec![
        Expression::satisfy(|c| c == b'a'),
        Expression::satisfy(|c| c == b'b').star(),
    ]);
    assert_eq!(r.find(b""), Some((1, 0..0)));
}

#[test]
fn match_is_always_anchored_at_zero() {
    let r = Recognizer::new(vec![Expression::satisfy(|c| c == b'b')]);
    // a match exists later in the input, but never one anchored at zero
    assert_eq!(r.find(b"ab"), None);
    assert_eq!(r.find(b"ba"), Some((0, 0..1)));
}

#[test]
fn compiling_twice_gives_identical_results() {
    let rules = || {
        vec![
            Expression::satisfy(|c| c == b'a').star(),
            Expression::satisfy(|c| c.is_ascii_digit()),
        ]
    };
    let r1 = Recognizer::new(rules());
    let r2 = Recognizer::new(rules());
    for input in [&b"aaa7"[..], b"7", b"", b"zzz", b"aaaa"] {
        assert_eq!(r1.find(input), r2.find(input));
    }
}

#[test]
fn star_of_alternation_scans_mixed_input() {
    let r = Recognizer::new(vec![Expression::satisfy(|c| c == b'a')
        .or(Expression::satisfy(|c| c == b'b'))
        .star()]);
    assert_eq!(r.find(b"abbaX"), Some((0, 0..4)));
    assert_eq!(r.find(b"X"), Some((0, 0..0)));
}

#[test]
fn boundary_byte_values() {
    let r = Recognizer::new(vec![
        Expression::satisfy(|c| c == 0u8),
        Expression::satisfy(|c| c == 255u8),
    ]);
    assert_eq!(r.find(&[0u8]), Some((0, 0..1)));
    assert_eq!(r.find(&[255u8]), Some((1, 0..1)));
    assert_eq!(r.find(&[1u8]), None);
}
