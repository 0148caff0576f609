//! Parsing of regular-expression pattern text into an abstract syntax tree.
//!
//! The pattern language has the metacharacters `\ ( ) | + * ?`; every other
//! character is a literal. `+`, `*` and `?` quantify the expression before
//! them, `|` separates alternatives, `( )` groups, and `\` escapes one of the
//! seven metacharacters. The parser walks the pattern once, keeping a current
//! sequence, a current list of alternatives, and a stack of saved contexts
//! for open groups; [`spec_parse`] states that walk mathematically and
//! [`parse`] is proved to return exactly its result.

use vstd::prelude::*;
use vstd::string::StrSliceExecFns;

verus! {

broadcast use
    vstd::seq::axiom_seq_index_decreases,
    vstd::seq::axiom_seq_subrange_decreases,
    vstd::std_specs::vec::axiom_vec_decreases_to_view;

/// Abstract syntax tree of a pattern.
#[derive(Debug, PartialEq)]
pub enum AST {
    /// Matches exactly the one literal character.
    Char(char),
    /// One or more repetitions of the inner expression.
    Plus(Box<AST>),
    /// Zero or more repetitions of the inner expression.
    Star(Box<AST>),
    /// Zero or one occurrence of the inner expression.
    Question(Box<AST>),
    /// Alternation between the left and the right expression.
    Or(Box<AST>, Box<AST>),
    /// Ordered concatenation of the sub-expressions.
    Sequence(Vec<AST>),
}

/// Mathematical model of an abstract syntax tree: the same shape as [`AST`],
/// with the children of a concatenation held as a `Seq`.
pub enum Re {
    Char(char),
    Plus(Box<Re>),
    Star(Box<Re>),
    Question(Box<Re>),
    Or(Box<Re>, Box<Re>),
    Sequence(Seq<Re>),
}

impl AST {
    /// The model of this tree.
    pub open spec fn view(&self) -> Re
        decreases self,
    {
        match self {
            AST::Char(c) => Re::Char(*c),
            AST::Plus(a) => Re::Plus(Box::new(a.view())),
            AST::Star(a) => Re::Star(Box::new(a.view())),
            AST::Question(a) => Re::Question(Box::new(a.view())),
            AST::Or(a, b) => Re::Or(Box::new(a.view()), Box::new(b.view())),
            AST::Sequence(v) => Re::Sequence(view_children(v@)),
        }
    }
}

/// The models of an ordered list of sub-trees, in order.
pub open spec fn view_children(s: Seq<AST>) -> Seq<Re>
    decreases s,
{
    if s.len() == 0 {
        Seq::empty()
    } else {
        view_children(s.subrange(0, s.len() - 1)).push(s[s.len() - 1].view())
    }
}

/// `view_children` maps each sub-tree to its model, keeping length and order.
pub proof fn lemma_view_children(s: Seq<AST>)
    ensures
        view_children(s).len() == s.len(),
        forall|i: int| 0 <= i < s.len() ==> view_children(s)[i] == #[trigger] s[i].view(),
    decreases s.len(),
{
    if s.len() > 0 {
        let front = s.subrange(0, s.len() - 1);
        lemma_view_children(front);
        assert forall|i: int| 0 <= i < s.len() implies view_children(s)[i] == #[trigger] s[i].view() by {
            if i < s.len() - 1 {
                assert(front[i] == s[i]);
            }
        }
    }
}

/// A failure of [`parse`], with the position of the offending character.
#[derive(Debug, PartialEq, Eq, Structural, Clone, Copy)]
pub enum ParseError {
    /// The character after `\` is not one of the seven metacharacters.
    InvalidEscape(usize, char),
    /// A `)` with no `(` open.
    UnmatchedRightParen(usize),
    /// A quantifier or `|` with no expression before it.
    NoPrev(usize),
    /// A `(` never closed by the end of the pattern.
    UnclosedGroup,
    /// The pattern holds no expression at all.
    EmptyPattern,
}

/// The seven characters that carry meaning unescaped, and that `\` may escape.
pub open spec fn is_meta(c: char) -> bool {
    c == '\\' || c == '(' || c == ')' || c == '|' || c == '+' || c == '*' || c == '?'
}

/// The parser's transient state: the sequence being built for the innermost
/// group, the completed alternatives of that group, the saved
/// (sequence, alternatives) pairs of the enclosing groups, and whether the
/// last character seen was an unresolved `\`.
#[verifier::ext_equal]
pub struct ParseCtx {
    pub seq: Seq<Re>,
    pub alts: Seq<Re>,
    pub stack: Seq<(Seq<Re>, Seq<Re>)>,
    pub escape: bool,
}

/// The state in which parsing starts.
pub open spec fn init_ctx() -> ParseCtx {
    ParseCtx { seq: Seq::empty(), alts: Seq::empty(), stack: Seq::empty(), escape: false }
}

/// Folds a list of alternatives into one right-associated `Or` chain whose
/// outermost left operand is the first alternative; `None` when the list is
/// empty.
pub open spec fn fold_alts(alts: Seq<Re>) -> Option<Re>
    decreases alts.len(),
{
    if alts.len() == 0 {
        None
    } else if alts.len() == 1 {
        Some(alts[0])
    } else {
        match fold_alts(alts.subrange(1, alts.len() as int)) {
            Some(rest) => Some(Re::Or(Box::new(alts[0]), Box::new(rest))),
            None => None,
        }
    }
}

/// The tree a quantifier character wraps around the expression before it.
pub open spec fn quantify(c: char, inner: Re) -> Re {
    if c == '+' {
        Re::Plus(Box::new(inner))
    } else if c == '*' {
        Re::Star(Box::new(inner))
    } else {
        Re::Question(Box::new(inner))
    }
}

/// One step of the parser: the state after reading character `c` at
/// position `pos`.
pub open spec fn step_ctx(st: ParseCtx, c: char, pos: usize) -> Result<ParseCtx, ParseError> {
    if st.escape {
        if is_meta(c) {
            Ok(ParseCtx { seq: st.seq.push(Re::Char(c)), alts: st.alts, stack: st.stack, escape: false })
        } else {
            Err(ParseError::InvalidEscape(pos, c))
        }
    } else if c == '+' || c == '*' || c == '?' {
        if st.seq.len() == 0 {
            Err(ParseError::NoPrev(pos))
        } else {
            Ok(ParseCtx {
                seq: st.seq.drop_last().push(quantify(c, st.seq.last())),
                alts: st.alts,
                stack: st.stack,
                escape: false,
            })
        }
    } else if c == '(' {
        Ok(ParseCtx {
            seq: Seq::empty(),
            alts: Seq::empty(),
            stack: st.stack.push((st.seq, st.alts)),
            escape: false,
        })
    } else if c == ')' {
        if st.stack.len() == 0 {
            Err(ParseError::UnmatchedRightParen(pos))
        } else {
            let (saved_seq, saved_alts) = st.stack.last();
            let alts1 = if st.seq.len() > 0 { st.alts.push(Re::Sequence(st.seq)) } else { st.alts };
            let seq1 = match fold_alts(alts1) {
                Some(a) => saved_seq.push(a),
                None => saved_seq,
            };
            Ok(ParseCtx { seq: seq1, alts: saved_alts, stack: st.stack.drop_last(), escape: false })
        }
    } else if c == '|' {
        if st.seq.len() == 0 {
            Err(ParseError::NoPrev(pos))
        } else {
            Ok(ParseCtx {
                seq: Seq::empty(),
                alts: st.alts.push(Re::Sequence(st.seq)),
                stack: st.stack,
                escape: false,
            })
        }
    } else if c == '\\' {
        Ok(ParseCtx { seq: st.seq, alts: st.alts, stack: st.stack, escape: true })
    } else {
        Ok(ParseCtx { seq: st.seq.push(Re::Char(c)), alts: st.alts, stack: st.stack, escape: false })
    }
}

/// The parser's state after the first `n` characters of `s`, or its first
/// error.
pub open spec fn run_ctx(s: Seq<char>, n: int) -> Result<ParseCtx, ParseError>
    decreases n,
{
    if n <= 0 {
        Ok(init_ctx())
    } else {
        match run_ctx(s, n - 1) {
            Ok(st) => step_ctx(st, s[n - 1], (n - 1) as usize),
            Err(e) => Err(e),
        }
    }
}

/// What the parser returns once the whole pattern is read in state `st`:
/// an unclosed group is an error, the last sequence becomes the last
/// alternative, and the alternatives fold into the final tree.
pub open spec fn finish_ctx(st: ParseCtx) -> Result<Re, ParseError> {
    if st.stack.len() > 0 {
        Err(ParseError::UnclosedGroup)
    } else {
        let alts1 = if st.seq.len() > 0 { st.alts.push(Re::Sequence(st.seq)) } else { st.alts };
        match fold_alts(alts1) {
            Some(re) => Ok(re),
            None => Err(ParseError::EmptyPattern),
        }
    }
}

/// The parse of a whole pattern: the model of what [`parse`] returns.
pub open spec fn spec_parse(s: Seq<char>) -> Result<Re, ParseError> {
    match run_ctx(s, s.len() as int) {
        Ok(st) => finish_ctx(st),
        Err(e) => Err(e),
    }
}

/// Once a step fails, the run keeps that error to the end.
proof fn lemma_run_err(s: Seq<char>, k: int, m: int)
    requires
        0 <= k <= m,
        run_ctx(s, k) is Err,
    ensures
        run_ctx(s, m) == run_ctx(s, k),
    decreases m - k,
{
    if m > k {
        lemma_run_err(s, k, m - 1);
    }
}

/// Appending a sub-tree appends its model.
pub proof fn lemma_view_children_push(s: Seq<AST>, a: AST)
    ensures
        view_children(s.push(a)) == view_children(s).push(a.view()),
{
    assert(s.push(a).subrange(0, s.push(a).len() - 1) =~= s);
}

/// Removing the last sub-tree removes its model.
pub proof fn lemma_view_children_drop_last(s: Seq<AST>)
    requires
        s.len() > 0,
    ensures
        view_children(s.drop_last()) == view_children(s).drop_last(),
        view_children(s).last() == s.last().view(),
        view_children(s).len() == s.len(),
{
    lemma_view_children(s);
    assert(s.subrange(0, s.len() - 1) =~= s.drop_last());
    assert(view_children(s.drop_last()).push(s.last().view()).drop_last() =~= view_children(
        s.drop_last(),
    ));
}

/// Turns an escaped character into a leaf: the seven metacharacters may be
/// escaped, and any other escape is an error carrying the position and the
/// character.
pub fn parse_escape(pos: usize, c: char) -> (r: Result<AST, ParseError>)
    ensures
        match r {
            Ok(a) => is_meta(c) && a@ == Re::Char(c),
            Err(e) => !is_meta(c) && e == ParseError::InvalidEscape(pos, c),
        },
{
    match c {
        '\\' | '(' | ')' | '|' | '+' | '*' | '?' => Ok(AST::Char(c)),
        _ => {
            let err = ParseError::InvalidEscape(pos, c);
            Err(err)
        },
    }
}

/// The three postfix quantifiers.
#[derive(Debug, Clone, Copy)]
pub enum PSQ {
    Plus,
    Star,
    Question,
}

/// The tree a quantifier kind wraps around the expression before it.
pub open spec fn psq_re(t: PSQ, inner: Re) -> Re {
    match t {
        PSQ::Plus => Re::Plus(Box::new(inner)),
        PSQ::Star => Re::Star(Box::new(inner)),
        PSQ::Question => Re::Question(Box::new(inner)),
    }
}

/// Wraps the last tree of the current sequence in the given quantifier.
/// Fails with `NoPrev` when the sequence is empty: a quantifier with nothing
/// before it to quantify.
pub fn parse_plus_star_question(seq: &mut Vec<AST>, ast_type: PSQ, pos: usize) -> (r: Result<
    (),
    ParseError,
>)
    ensures
        match r {
            Ok(_) => old(seq)@.len() > 0 && view_children(final(seq)@) == view_children(
                old(seq)@,
            ).drop_last().push(psq_re(ast_type, view_children(old(seq)@).last())),
            Err(e) => old(seq)@.len() == 0 && e == ParseError::NoPrev(pos) && final(seq)@ == old(
                seq,
            )@,
        },
{
    match seq.pop() {
        Some(prev) => {
            let ast = match ast_type {
                PSQ::Plus => AST::Plus(Box::new(prev)),
                PSQ::Star => AST::Star(Box::new(prev)),
                PSQ::Question => AST::Question(Box::new(prev)),
            };
            proof {
                lemma_view_children_drop_last(old(seq)@);
                lemma_view_children_push(old(seq)@.drop_last(), ast);
            }
            seq.push(ast);
            Ok(())
        },
        None => Err(ParseError::NoPrev(pos)),
    }
}

/// Folds completed alternatives into one tree, the first alternative as the
/// outermost left operand of a right-associated `Or` chain; `None` when there
/// is no alternative.
pub fn fold_or(seq_or: Vec<AST>) -> (r: Option<AST>)
    ensures
        match r {
            Some(ast) => fold_alts(view_children(seq_or@)) == Some(ast@),
            None => seq_or@.len() == 0,
        },
{
    let ghost orig: Seq<Re> = view_children(seq_or@);
    let mut rest = seq_or;
    match rest.pop() {
        None => None,
        Some(first) => {
            let mut ast = first;
            proof {
                lemma_view_children_drop_last(rest@.push(first));
                assert(rest@.push(first).drop_last() =~= rest@);
                assert(orig.subrange(rest@.len() as int, orig.len() as int) =~= seq![ast@]);
            }
            while rest.len() > 0
                invariant
                    orig.len() > rest@.len(),
                    view_children(rest@) =~= orig.subrange(0, rest@.len() as int),
                    fold_alts(orig.subrange(rest@.len() as int, orig.len() as int)) == Some(ast@),
                decreases rest.len(),
            {
                let ghost k = rest@.len() - 1;
                proof {
                    lemma_view_children_drop_last(rest@);
                }
                let prev = match rest.pop() {
                    Some(p) => p,
                    None => {
                        proof {
                            assert(false);
                        }
                        return None;
                    },
                };
                proof {
                    assert(prev@ == orig[k]);
                }
                ast = AST::Or(Box::new(prev), Box::new(ast));
                proof {
                    let tail = orig.subrange(k, orig.len() as int);
                    assert(tail.subrange(1, tail.len() as int) =~= orig.subrange(
                        k + 1,
                        orig.len() as int,
                    ));
                    assert(view_children(rest@) =~= orig.subrange(0, rest@.len() as int));
                }
            }
            proof {
                assert(orig.subrange(0, orig.len() as int) =~= orig);
            }
            Some(ast)
        },
    }
}

/// How many leaves (literal characters) a tree holds.
pub open spec fn leaves(re: Re) -> nat
    decreases re,
{
    match re {
        Re::Char(_) => 1,
        Re::Plus(e) => leaves(*e),
        Re::Star(e) => leaves(*e),
        Re::Question(e) => leaves(*e),
        Re::Or(l, r) => leaves(*l) + leaves(*r),
        Re::Sequence(s) => leaves_children(s),
    }
}

/// [`leaves`] summed over a list of sub-trees.
pub open spec fn leaves_children(s: Seq<Re>) -> nat
    decreases s,
{
    if s.len() == 0 {
        0
    } else {
        leaves_children(s.drop_last()) + leaves(s.last())
    }
}

/// Whether the parser is mid-escape after the first `n` characters.
pub open spec fn escape_at(s: Seq<char>, n: int) -> bool
    decreases n,
{
    if n <= 0 {
        false
    } else {
        !escape_at(s, n - 1) && s[n - 1] == '\\'
    }
}

/// How many of the first `n` characters stand for a literal: every escaped
/// character, and every unescaped character that is not a metacharacter.
pub open spec fn literal_count_prefix(s: Seq<char>, n: int) -> nat
    decreases n,
{
    if n <= 0 {
        0
    } else {
        literal_count_prefix(s, n - 1) + (if escape_at(s, n - 1) {
            1nat
        } else if is_meta(s[n - 1]) {
            0nat
        } else {
            1nat
        })
    }
}

/// How many characters of the pattern stand for a literal, escaped or not.
pub open spec fn literal_count(s: Seq<char>) -> nat {
    literal_count_prefix(s, s.len() as int)
}

/// All leaves held by a parser state, over its sequence, its alternatives
/// and its saved contexts.
pub open spec fn ctx_leaves(st: ParseCtx) -> nat {
    leaves_children(st.seq) + leaves_children(st.alts) + stack_leaves(st.stack)
}

/// [`leaves_children`] summed over the saved contexts of a stack.
pub open spec fn stack_leaves(stk: Seq<(Seq<Re>, Seq<Re>)>) -> nat
    decreases stk,
{
    if stk.len() == 0 {
        0
    } else {
        stack_leaves(stk.drop_last()) + leaves_children(stk.last().0) + leaves_children(
            stk.last().1,
        )
    }
}

/// Appending a tree adds its leaves.
proof fn lemma_leaves_children_push(s: Seq<Re>, x: Re)
    ensures
        leaves_children(s.push(x)) == leaves_children(s) + leaves(x),
{
    assert(s.push(x).drop_last() =~= s);
    assert(s.push(x).last() == x);
}

/// The leaves of a list split off at its head.
proof fn lemma_leaves_children_head(s: Seq<Re>)
    requires
        s.len() > 0,
    ensures
        leaves_children(s) == leaves(s[0]) + leaves_children(s.subrange(1, s.len() as int)),
    decreases s.len(),
{
    if s.len() == 1 {
        assert(s.drop_last().len() == 0);
        assert(s.subrange(1, s.len() as int).len() == 0);
        assert(leaves_children(s.drop_last()) == 0);
        assert(leaves_children(s.subrange(1, s.len() as int)) == 0);
    } else {
        let front = s.drop_last();
        let tail = s.subrange(1, s.len() as int);
        lemma_leaves_children_head(front);
        assert(front.subrange(1, front.len() as int) =~= tail.drop_last());
        assert(tail.last() == s.last());
        assert(front[0] == s[0]);
    }
}

/// Folding alternatives into an `Or` chain keeps the leaf count.
proof fn lemma_fold_leaves(alts: Seq<Re>)
    requires
        alts.len() > 0,
    ensures
        fold_alts(alts) matches Some(re) && leaves(re) == leaves_children(alts),
    decreases alts.len(),
{
    if alts.len() == 1 {
        assert(alts.drop_last().len() == 0);
        assert(leaves_children(alts.drop_last()) == 0);
        assert(alts.last() == alts[0]);
    } else {
        let rest = alts.subrange(1, alts.len() as int);
        lemma_fold_leaves(rest);
        lemma_leaves_children_head(alts);
    }
}

/// One accepted step changes the state's leaf count by exactly the
/// contribution of the character read: one for a literal, none for an
/// unescaped metacharacter.
proof fn lemma_step_leaves(st: ParseCtx, c: char, pos: usize)
    requires
        step_ctx(st, c, pos) is Ok,
    ensures
        ctx_leaves(step_ctx(st, c, pos)->Ok_0) == ctx_leaves(st) + (if st.escape {
            1nat
        } else if is_meta(c) {
            0nat
        } else {
            1nat
        }),
        step_ctx(st, c, pos)->Ok_0.escape == (!st.escape && c == '\\'),
{
    let st1 = step_ctx(st, c, pos)->Ok_0;
    if st.escape {
        lemma_leaves_children_push(st.seq, Re::Char(c));
    } else if c == '+' || c == '*' || c == '?' {
        lemma_leaves_children_push(st.seq.drop_last(), quantify(c, st.seq.last()));
        assert(st.seq.drop_last().push(st.seq.last()) =~= st.seq);
        lemma_leaves_children_push(st.seq.drop_last(), st.seq.last());
    } else if c == '(' {
        assert(st.stack.push((st.seq, st.alts)).drop_last() =~= st.stack);
        assert(st.stack.push((st.seq, st.alts)).last() == (st.seq, st.alts));
    } else if c == ')' {
        let (saved_seq, saved_alts) = st.stack.last();
        let alts1 = if st.seq.len() > 0 {
            st.alts.push(Re::Sequence(st.seq))
        } else {
            st.alts
        };
        if st.seq.len() > 0 {
            lemma_leaves_children_push(st.alts, Re::Sequence(st.seq));
        }
        assert(leaves_children(alts1) == leaves_children(st.alts) + leaves_children(st.seq));
        if alts1.len() > 0 {
            lemma_fold_leaves(alts1);
            lemma_leaves_children_push(saved_seq, fold_alts(alts1)->Some_0);
        }
        assert(stack_leaves(st.stack) == stack_leaves(st.stack.drop_last()) + leaves_children(
            saved_seq,
        ) + leaves_children(saved_alts));
    } else if c == '|' {
        lemma_leaves_children_push(st.alts, Re::Sequence(st.seq));
    } else if c == '\\' {
    } else {
        lemma_leaves_children_push(st.seq, Re::Char(c));
    }
}

/// After any accepted prefix, the state holds exactly as many leaves as the
/// prefix holds literal characters, and the escape flag matches the prefix.
proof fn lemma_run_leaves(s: Seq<char>, n: int)
    requires
        0 <= n <= s.len(),
        run_ctx(s, n) is Ok,
    ensures
        ctx_leaves(run_ctx(s, n)->Ok_0) == literal_count_prefix(s, n),
        run_ctx(s, n)->Ok_0.escape == escape_at(s, n),
    decreases n,
{
    if n > 0 {
        lemma_run_leaves(s, n - 1);
        lemma_step_leaves(run_ctx(s, n - 1)->Ok_0, s[n - 1], (n - 1) as usize);
    }
}

/// For every pattern the parser accepts, the tree's leaf count equals the
/// number of literal characters, escaped or not, in the pattern.
pub proof fn lemma_leaf_count(s: Seq<char>)
    requires
        spec_parse(s) is Ok,
    ensures
        leaves(spec_parse(s)->Ok_0) == literal_count(s),
{
    lemma_run_leaves(s, s.len() as int);
    let st = run_ctx(s, s.len() as int)->Ok_0;
    let alts1 = if st.seq.len() > 0 {
        st.alts.push(Re::Sequence(st.seq))
    } else {
        st.alts
    };
    if st.seq.len() > 0 {
        lemma_leaves_children_push(st.alts, Re::Sequence(st.seq));
    }
    lemma_fold_leaves(alts1);
}

/// The model of the executable parser's working state.
pub open spec fn ctx_of(
    seq: Vec<AST>,
    alts: Vec<AST>,
    stack: Vec<(Vec<AST>, Vec<AST>)>,
    escape: bool,
) -> ParseCtx {
    ParseCtx {
        seq: view_children(seq@),
        alts: view_children(alts@),
        stack: Seq::new(
            stack@.len(),
            |i: int| (view_children(stack@[i].0@), view_children(stack@[i].1@)),
        ),
        escape: escape,
    }
}

/// Parses a pattern into an abstract syntax tree, reading it one character at
/// a time; returns exactly what the one-step model [`spec_parse`] gives, the
/// tree on success and the first error otherwise.
pub fn parse(expr: &str) -> (r: Result<AST, ParseError>)
    ensures
        match r {
            Ok(ast) => spec_parse(expr@) == Ok::<Re, ParseError>(ast@),
            Err(e) => spec_parse(expr@) == Err::<Re, ParseError>(e),
        },
{
    let n = expr.unicode_len();
    let mut seq: Vec<AST> = Vec::new();
    let mut seq_or: Vec<AST> = Vec::new();
    let mut stack: Vec<(Vec<AST>, Vec<AST>)> = Vec::new();
    let mut escape = false;
    let mut i: usize = 0;
    proof {
        assert(ctx_of(seq, seq_or, stack, escape) =~~= init_ctx());
    }
    while i < n
        invariant
            n == expr@.len(),
            i <= n,
            run_ctx(expr@, i as int) == Ok::<ParseCtx, ParseError>(
                ctx_of(seq, seq_or, stack, escape),
            ),
        decreases n - i,
    {
        let c = expr.get_char(i);
        let ghost st = ctx_of(seq, seq_or, stack, escape);
        proof {
            lemma_view_children(seq@);
            assert(run_ctx(expr@, i + 1) == step_ctx(st, expr@[i as int], i));
        }
        if escape {
            match parse_escape(i, c) {
                Ok(ast) => {
                    proof {
                        lemma_view_children_push(seq@, ast);
                    }
                    seq.push(ast);
                    escape = false;
                    proof {
                        assert(step_ctx(st, c, i)->Ok_0 =~~= ctx_of(seq, seq_or, stack, escape));
                    }
                },
                Err(e) => {
                    proof {
                        lemma_run_err(expr@, i + 1, n as int);
                    }
                    return Err(e);
                },
            }
        } else if c == '+' || c == '*' || c == '?' {
            let ast_type = if c == '+' {
                PSQ::Plus
            } else if c == '*' {
                PSQ::Star
            } else {
                PSQ::Question
            };
            match parse_plus_star_question(&mut seq, ast_type, i) {
                Ok(_) => {
                    proof {
                        assert(step_ctx(st, c, i)->Ok_0 =~~= ctx_of(seq, seq_or, stack, escape));
                    }
                },
                Err(e) => {
                    proof {
                        lemma_run_err(expr@, i + 1, n as int);
                    }
                    return Err(e);
                },
            }
        } else if c == '(' {
            let prev = seq;
            let prev_or = seq_or;
            seq = Vec::new();
            seq_or = Vec::new();
            stack.push((prev, prev_or));
            proof {
                assert(step_ctx(st, c, i)->Ok_0 =~~= ctx_of(seq, seq_or, stack, escape));
            }
        } else if c == ')' {
            match stack.pop() {
                None => {
                    proof {
                        lemma_run_err(expr@, i + 1, n as int);
                    }
                    return Err(ParseError::UnmatchedRightParen(i));
                },
                Some(saved) => {
                    let (prev, prev_or) = saved;
                    let cur_seq = seq;
                    let mut cur_or = seq_or;
                    seq = prev;
                    seq_or = prev_or;
                    if cur_seq.len() > 0 {
                        proof {
                            lemma_view_children(cur_seq@);
                            lemma_view_children_push(cur_or@, AST::Sequence(cur_seq));
                        }
                        cur_or.push(AST::Sequence(cur_seq));
                    } else {
                        proof {
                            lemma_view_children(cur_seq@);
                        }
                    }
                    proof {
                        lemma_view_children(cur_or@);
                    }
                    match fold_or(cur_or) {
                        Some(ast) => {
                            proof {
                                lemma_view_children_push(seq@, ast);
                            }
                            seq.push(ast);
                        },
                        None => {},
                    }
                    proof {
                        assert(step_ctx(st, c, i)->Ok_0 =~~= ctx_of(seq, seq_or, stack, escape));
                    }
                },
            }
        } else if c == '|' {
            if seq.len() == 0 {
                proof {
                    lemma_run_err(expr@, i + 1, n as int);
                }
                return Err(ParseError::NoPrev(i));
            }
            let prev = seq;
            seq = Vec::new();
            proof {
                lemma_view_children_push(seq_or@, AST::Sequence(prev));
            }
            seq_or.push(AST::Sequence(prev));
            proof {
                assert(step_ctx(st, c, i)->Ok_0 =~~= ctx_of(seq, seq_or, stack, escape));
            }
        } else if c == '\\' {
            escape = true;
            proof {
                assert(step_ctx(st, c, i)->Ok_0 =~~= ctx_of(seq, seq_or, stack, escape));
            }
        } else {
            proof {
                lemma_view_children_push(seq@, AST::Char(c));
            }
            seq.push(AST::Char(c));
            proof {
                assert(step_ctx(st, c, i)->Ok_0 =~~= ctx_of(seq, seq_or, stack, escape));
            }
        }
        i += 1;
    }
    let ghost st = ctx_of(seq, seq_or, stack, escape);
    proof {
        assert(spec_parse(expr@) == finish_ctx(st));
        lemma_view_children(seq@);
    }
    if stack.len() > 0 {
        return Err(ParseError::UnclosedGroup);
    }
    let mut alts = seq_or;
    if seq.len() > 0 {
        let last_seq = seq;
        proof {
            lemma_view_children(last_seq@);
            lemma_view_children_push(alts@, AST::Sequence(last_seq));
        }
        alts.push(AST::Sequence(last_seq));
    }
    proof {
        lemma_view_children(alts@);
    }
    match fold_or(alts) {
        Some(ast) => Ok(ast),
        None => Err(ParseError::EmptyPattern),
    }
}

} // verus!
