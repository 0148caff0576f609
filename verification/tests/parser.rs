use regex_engine::parser::{parse, AST, ParseError};

fn ch(c: char) -> AST {
    AST::Char(c)
}

fn seq(children: Vec<AST>) -> AST {
    AST::Sequence(children)
}

/// Counts the literal leaves of a tree.
fn leaf_count(ast: &AST) -> usize {
    match ast {
        AST::Char(_) => 1,
        AST::Plus(e) | AST::Star(e) | AST::Question(e) => leaf_count(e),
        AST::Or(l, r) => leaf_count(l) + leaf_count(r),
        AST::Sequence(v) => v.iter().map(leaf_count).sum(),
    }
}

#[test]
fn empty_pattern_is_rejected() {
    assert_eq!(parse(""), Err(ParseError::EmptyPattern));
}

#[test]
fn empty_group_is_rejected() {
    assert_eq!(parse("()"), Err(ParseError::EmptyPattern));
}

#[test]
fn leading_star_has_no_previous() {
    assert_eq!(parse("*a"), Err(ParseError::NoPrev(0)));
}

#[test]
fn star_after_bar_has_no_previous() {
    assert_eq!(parse("a|*"), Err(ParseError::NoPrev(2)));
}

#[test]
fn leading_bar_has_no_previous() {
    assert_eq!(parse("|a"), Err(ParseError::NoPrev(0)));
}

#[test]
fn double_bar_has_no_previous() {
    assert_eq!(parse("a||b"), Err(ParseError::NoPrev(2)));
}

#[test]
fn unclosed_group_is_rejected() {
    assert_eq!(parse("(abc"), Err(ParseError::UnclosedGroup));
}

#[test]
fn unmatched_right_paren_is_rejected() {
    assert_eq!(parse("abc)"), Err(ParseError::UnmatchedRightParen(3)));
}

#[test]
fn invalid_escape_is_rejected() {
    assert_eq!(parse("\\x"), Err(ParseError::InvalidEscape(1, 'x')));
}

#[test]
fn escaped_paren_is_a_literal() {
    assert_eq!(parse("\\("), Ok(seq(vec![ch('(')])));
}

#[test]
fn every_metacharacter_can_be_escaped() {
    assert_eq!(
        parse("\\\\\\(\\)\\|\\+\\*\\?"),
        Ok(seq(vec![ch('\\'), ch('('), ch(')'), ch('|'), ch('+'), ch('*'), ch('?')]))
    );
}

#[test]
fn plain_characters_form_a_sequence() {
    assert_eq!(parse("abc"), Ok(seq(vec![ch('a'), ch('b'), ch('c')])));
}

#[test]
fn alternation_folds_right_with_first_outermost() {
    assert_eq!(
        parse("a|b|c"),
        Ok(AST::Or(
            Box::new(seq(vec![ch('a')])),
            Box::new(AST::Or(
                Box::new(seq(vec![ch('b')])),
                Box::new(seq(vec![ch('c')]))
            )),
        ))
    );
}

#[test]
fn grouping_only_nests_one_sequence_deeper() {
    assert_eq!(parse("a"), Ok(seq(vec![ch('a')])));
    assert_eq!(parse("(a)"), Ok(seq(vec![seq(vec![ch('a')])])));
}

#[test]
fn quantifier_wraps_the_expression_before_it() {
    assert_eq!(
        parse("ab+c"),
        Ok(seq(vec![ch('a'), AST::Plus(Box::new(ch('b'))), ch('c')]))
    );
    assert_eq!(parse("a*"), Ok(seq(vec![AST::Star(Box::new(ch('a')))])));
    assert_eq!(parse("a?"), Ok(seq(vec![AST::Question(Box::new(ch('a')))])));
}

#[test]
fn group_with_alternation_and_quantifier() {
    assert_eq!(
        parse("a(b|c)*"),
        Ok(seq(vec![
            ch('a'),
            AST::Star(Box::new(AST::Or(
                Box::new(seq(vec![ch('b')])),
                Box::new(seq(vec![ch('c')]))
            ))),
        ]))
    );
}

#[test]
fn leaf_count_equals_literal_count() {
    assert_eq!(leaf_count(&parse("ab+c").unwrap()), 3);
    assert_eq!(leaf_count(&parse("\\(a|b*").unwrap()), 3);
    assert_eq!(leaf_count(&parse("(ab)?c|d").unwrap()), 4);
}

#[test]
fn trailing_backslash_is_dropped() {
    assert_eq!(parse("ab\\"), Ok(seq(vec![ch('a'), ch('b')])));
}
