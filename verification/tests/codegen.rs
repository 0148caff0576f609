use regex_engine::codegen::{generate, Instruction};
use regex_engine::parser::{parse, AST};

/// A minimal backtracking executor over a generated program: tries the first
/// target of a split, and on failure the second; accepts when `Match` is
/// reached with the whole text consumed.
fn run(prog: &[Instruction], text: &[char], pc: usize, sp: usize) -> bool {
    match prog[pc] {
        Instruction::Char(c) => sp < text.len() && text[sp] == c && run(prog, text, pc + 1, sp + 1),
        Instruction::Match => sp == text.len(),
        Instruction::Jump(t) => run(prog, text, t, sp),
        Instruction::Split(a, b) => run(prog, text, a, sp) || run(prog, text, b, sp),
    }
}

fn accepts(prog: &[Instruction], s: &str) -> bool {
    let text: Vec<char> = s.chars().collect();
    run(prog, &text, 0, 0)
}

fn targets_in_range(prog: &[Instruction]) -> bool {
    prog.iter().all(|inst| match *inst {
        Instruction::Jump(t) => t < prog.len(),
        Instruction::Split(a, b) => a < prog.len() && b < prog.len(),
        _ => true,
    })
}

#[test]
fn char_lowers_to_char_then_match() {
    let prog = generate(&AST::Char('a')).unwrap();
    assert_eq!(prog, vec![Instruction::Char('a'), Instruction::Match]);
}

#[test]
fn star_emits_one_split_and_one_jump() {
    let prog = generate(&parse("a*").unwrap()).unwrap();
    assert_eq!(
        prog,
        vec![
            Instruction::Split(1, 3),
            Instruction::Char('a'),
            Instruction::Jump(0),
            Instruction::Match,
        ]
    );
}

#[test]
fn plus_emits_one_split() {
    let prog = generate(&parse("a+").unwrap()).unwrap();
    assert_eq!(
        prog,
        vec![Instruction::Char('a'), Instruction::Split(0, 2), Instruction::Match]
    );
}

#[test]
fn question_emits_one_split() {
    let prog = generate(&parse("a?").unwrap()).unwrap();
    assert_eq!(
        prog,
        vec![Instruction::Split(1, 2), Instruction::Char('a'), Instruction::Match]
    );
}

#[test]
fn or_emits_one_split_and_one_jump() {
    let prog = generate(&parse("a|b").unwrap()).unwrap();
    assert_eq!(
        prog,
        vec![
            Instruction::Split(1, 3),
            Instruction::Char('a'),
            Instruction::Jump(4),
            Instruction::Char('b'),
            Instruction::Match,
        ]
    );
}

#[test]
fn grouping_lowers_to_the_same_program() {
    let grouped = generate(&parse("(a)").unwrap()).unwrap();
    let plain = generate(&parse("a").unwrap()).unwrap();
    assert_eq!(grouped, plain);
}

#[test]
fn all_targets_lie_inside_the_program() {
    for pattern in ["a", "a*", "a+b?", "a|b|c", "(ab|c)*d", "x(y|z+)?\\*"] {
        let prog = generate(&parse(pattern).unwrap()).unwrap();
        assert!(targets_in_range(&prog), "{pattern}");
    }
}

#[test]
fn round_trip_of_ab_plus_c() {
    let ast = parse("ab+c").unwrap();
    assert_eq!(
        ast,
        AST::Sequence(vec![
            AST::Char('a'),
            AST::Plus(Box::new(AST::Char('b'))),
            AST::Char('c'),
        ])
    );
    let prog = generate(&ast).unwrap();
    assert_eq!(
        prog,
        vec![
            Instruction::Char('a'),
            Instruction::Char('b'),
            Instruction::Split(1, 3),
            Instruction::Char('c'),
            Instruction::Match,
        ]
    );
    assert!(accepts(&prog, "abc"));
    assert!(accepts(&prog, "abbc"));
    assert!(!accepts(&prog, "ac"));
}

#[test]
fn alternation_program_matches_either_branch() {
    let prog = generate(&parse("ab|cd").unwrap()).unwrap();
    assert!(accepts(&prog, "ab"));
    assert!(accepts(&prog, "cd"));
    assert!(!accepts(&prog, "ad"));
    assert!(!accepts(&prog, ""));
}

#[test]
fn star_program_matches_zero_or_more() {
    let prog = generate(&parse("ab*c").unwrap()).unwrap();
    assert!(accepts(&prog, "ac"));
    assert!(accepts(&prog, "abc"));
    assert!(accepts(&prog, "abbbbc"));
    assert!(!accepts(&prog, "abb"));
}
