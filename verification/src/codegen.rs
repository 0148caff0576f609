//! Lowering of an abstract syntax tree into a linear instruction program for
//! a backtracking matching machine.
//!
//! The program is a flat sequence of instructions; every jump and split
//! carries an absolute target address, an index into that same sequence. The
//! generator walks the tree post-order, advancing a program counter through
//! the overflow-checked [`crate::helper::safe_add`], so a program too large
//! for the address type surfaces as a typed error and never as a wrapped
//! address. [`code_of`] states the exact program a tree lowers to and
//! [`gen_spec`] the exact error when the address range runs out.

use crate::helper::safe_add;
use crate::parser::{lemma_view_children, view_children, AST, Re};
use vstd::prelude::*;

verus! {

broadcast use
    vstd::seq::axiom_seq_index_decreases,
    vstd::seq::axiom_seq_subrange_decreases,
    vstd::std_specs::vec::axiom_vec_index_decreases,
    vstd::std_specs::vec::axiom_vec_decreases_to_view;

/// A failure of [`generate`].
#[derive(Debug, PartialEq, Eq, Structural, Clone, Copy)]
pub enum CodeGenError {
    /// An instruction address or program-counter increment left the
    /// addressable range.
    ProgramCounterOverflow,
    /// The exit address of a zero-or-more repetition could not be resolved.
    FailStar,
    /// A branch address of an alternation could not be resolved.
    FailOr,
    /// The skip address of a zero-or-one occurrence could not be resolved.
    FailQuestion,
}

/// One instruction of the matching machine. Addresses are absolute indices
/// into the program that holds the instruction.
#[derive(Debug, PartialEq, Eq, Structural, Clone, Copy)]
pub enum Instruction {
    /// Consume one input character if it equals the operand, else fail this
    /// path.
    Char(char),
    /// Successful end of the program; accept.
    Match,
    /// Unconditional transfer of control to the target.
    Jump(usize),
    /// Nondeterministic branch: try the first target, and on backtrack the
    /// second.
    Split(usize, usize),
}

/// How many instructions the lowering of a tree occupies.
pub open spec fn code_len(re: Re) -> nat
    decreases re,
{
    match re {
        Re::Char(_) => 1,
        Re::Plus(e) => code_len(*e) + 1,
        Re::Star(e) => code_len(*e) + 2,
        Re::Question(e) => code_len(*e) + 1,
        Re::Or(l, r) => code_len(*l) + code_len(*r) + 2,
        Re::Sequence(s) => code_len_children(s),
    }
}

/// How many instructions the lowerings of a list of sub-trees occupy
/// together.
pub open spec fn code_len_children(s: Seq<Re>) -> nat
    decreases s,
{
    if s.len() == 0 {
        0
    } else {
        code_len_children(s.drop_last()) + code_len(s.last())
    }
}

/// The exact program a tree lowers to when its code starts at address `base`.
pub open spec fn code_of(re: Re, base: int) -> Seq<Instruction>
    decreases re,
{
    match re {
        Re::Char(c) => seq![Instruction::Char(c)],
        Re::Plus(e) => code_of(*e, base) + seq![
            Instruction::Split(base as usize, (base + code_len(*e) + 1) as usize),
        ],
        Re::Star(e) => seq![
            Instruction::Split((base + 1) as usize, (base + code_len(*e) + 2) as usize),
        ] + code_of(*e, base + 1) + seq![Instruction::Jump(base as usize)],
        Re::Question(e) => seq![
            Instruction::Split((base + 1) as usize, (base + code_len(*e) + 1) as usize),
        ] + code_of(*e, base + 1),
        Re::Or(l, r) => seq![
            Instruction::Split((base + 1) as usize, (base + code_len(*l) + 2) as usize),
        ] + code_of(*l, base + 1) + seq![
            Instruction::Jump((base + code_len(*l) + code_len(*r) + 2) as usize),
        ] + code_of(*r, base + code_len(*l) + 2),
        Re::Sequence(s) => code_of_children(s, base),
    }
}

/// The concatenated programs of a list of sub-trees, starting at `base`.
pub open spec fn code_of_children(s: Seq<Re>, base: int) -> Seq<Instruction>
    decreases s,
{
    if s.len() == 0 {
        Seq::empty()
    } else {
        code_of_children(s.drop_last(), base) + code_of(
            s.last(),
            base + code_len_children(s.drop_last()),
        )
    }
}

/// The lowering of a tree occupies exactly [`code_len`] instructions.
pub broadcast proof fn lemma_code_of_len(re: Re, base: int)
    ensures
        (#[trigger] code_of(re, base)).len() == code_len(re),
    decreases re,
{
    match re {
        Re::Char(_) => {},
        Re::Plus(e) => lemma_code_of_len(*e, base),
        Re::Star(e) => lemma_code_of_len(*e, base + 1),
        Re::Question(e) => lemma_code_of_len(*e, base + 1),
        Re::Or(l, r) => {
            lemma_code_of_len(*l, base + 1);
            lemma_code_of_len(*r, base + code_len(*l) + 2);
        },
        Re::Sequence(s) => lemma_code_of_children_len(s, base),
    }
}

/// The lowerings of a list of sub-trees occupy exactly [`code_len_children`]
/// instructions.
pub broadcast proof fn lemma_code_of_children_len(s: Seq<Re>, base: int)
    ensures
        (#[trigger] code_of_children(s, base)).len() == code_len_children(s),
    decreases s,
{
    if s.len() > 0 {
        lemma_code_of_children_len(s.drop_last(), base);
        lemma_code_of_len(s.last(), base + code_len_children(s.drop_last()));
    }
}

/// Whether lowering succeeds when its code starts at address `base`, and the
/// first error when it does not: the program counter is advanced through
/// checked additions, and the first one to leave the address range aborts
/// generation with the kind of the construct being resolved.
pub open spec fn gen_spec(re: Re, base: int) -> Result<(), CodeGenError>
    decreases re,
{
    match re {
        Re::Char(_) => if base + 1 > usize::MAX {
            Err(CodeGenError::ProgramCounterOverflow)
        } else {
            Ok(())
        },
        Re::Plus(e) => match gen_spec(*e, base) {
            Ok(_) => if base + code_len(*e) + 1 > usize::MAX {
                Err(CodeGenError::ProgramCounterOverflow)
            } else {
                Ok(())
            },
            Err(err) => Err(err),
        },
        Re::Star(e) => if base + 1 > usize::MAX {
            Err(CodeGenError::FailStar)
        } else {
            match gen_spec(*e, base + 1) {
                Ok(_) => if base + code_len(*e) + 2 > usize::MAX {
                    Err(CodeGenError::FailStar)
                } else {
                    Ok(())
                },
                Err(err) => Err(err),
            }
        },
        Re::Question(e) => if base + 1 > usize::MAX {
            Err(CodeGenError::FailQuestion)
        } else {
            gen_spec(*e, base + 1)
        },
        Re::Or(l, r) => if base + 1 > usize::MAX {
            Err(CodeGenError::FailOr)
        } else {
            match gen_spec(*l, base + 1) {
                Ok(_) => if base + code_len(*l) + 2 > usize::MAX {
                    Err(CodeGenError::FailOr)
                } else {
                    gen_spec(*r, base + code_len(*l) + 2)
                },
                Err(err) => Err(err),
            }
        },
        Re::Sequence(s) => gen_children_spec(s, base),
    }
}

/// [`gen_spec`] over a list of sub-trees lowered one after the other.
pub open spec fn gen_children_spec(s: Seq<Re>, base: int) -> Result<(), CodeGenError>
    decreases s,
{
    if s.len() == 0 {
        Ok(())
    } else {
        match gen_children_spec(s.drop_last(), base) {
            Ok(_) => gen_spec(s.last(), base + code_len_children(s.drop_last())),
            Err(e) => Err(e),
        }
    }
}

/// Lowering succeeds exactly when the whole program fits the address range.
pub proof fn lemma_gen_spec_ok(re: Re, base: int)
    requires
        0 <= base <= usize::MAX,
    ensures
        gen_spec(re, base) is Ok <==> base + code_len(re) <= usize::MAX,
    decreases re,
{
    match re {
        Re::Char(_) => {},
        Re::Plus(e) => lemma_gen_spec_ok(*e, base),
        Re::Star(e) => {
            if base + 1 <= usize::MAX {
                lemma_gen_spec_ok(*e, base + 1);
            }
        },
        Re::Question(e) => {
            if base + 1 <= usize::MAX {
                lemma_gen_spec_ok(*e, base + 1);
            }
        },
        Re::Or(l, r) => {
            if base + 1 <= usize::MAX {
                lemma_gen_spec_ok(*l, base + 1);
                if base + code_len(*l) + 2 <= usize::MAX {
                    lemma_gen_spec_ok(*r, base + code_len(*l) + 2);
                }
            }
        },
        Re::Sequence(s) => lemma_gen_children_spec_ok(s, base),
    }
}

/// [`lemma_gen_spec_ok`] for a list of sub-trees.
pub proof fn lemma_gen_children_spec_ok(s: Seq<Re>, base: int)
    requires
        0 <= base <= usize::MAX,
    ensures
        gen_children_spec(s, base) is Ok <==> base + code_len_children(s) <= usize::MAX,
    decreases s,
{
    if s.len() > 0 {
        lemma_gen_children_spec_ok(s.drop_last(), base);
        if base + code_len_children(s.drop_last()) <= usize::MAX {
            lemma_gen_spec_ok(s.last(), base + code_len_children(s.drop_last()));
        }
    }
}

/// Once one child fails, the whole list fails with that error.
proof fn lemma_gen_children_err(s: Seq<Re>, idx: int, j: int, base: int, e: CodeGenError)
    requires
        0 <= idx < j <= s.len(),
        gen_children_spec(s.subrange(0, idx), base) == Ok::<(), CodeGenError>(()),
        gen_spec(s[idx], base + code_len_children(s.subrange(0, idx))) == Err::<
            (),
            CodeGenError,
        >(e),
    ensures
        gen_children_spec(s.subrange(0, j), base) == Err::<(), CodeGenError>(e),
    decreases j,
{
    let sj = s.subrange(0, j);
    if j == idx + 1 {
        assert(sj.drop_last() =~= s.subrange(0, idx));
        assert(sj.last() == s[idx]);
    } else {
        lemma_gen_children_err(s, idx, j - 1, base, e);
        assert(sj.drop_last() =~= s.subrange(0, j - 1));
    }
}

/// Whether every target address of one instruction lies in `[lo, hi]`.
pub open spec fn targets_in(inst: Instruction, lo: int, hi: int) -> bool {
    match inst {
        Instruction::Jump(t) => lo <= t <= hi,
        Instruction::Split(a, b) => lo <= a <= hi && lo <= b <= hi,
        _ => true,
    }
}

/// Every target in the lowering of a tree points into the tree's own code or
/// to the one address just past it.
pub proof fn lemma_code_targets(re: Re, base: int)
    requires
        0 <= base,
        base + code_len(re) <= usize::MAX,
    ensures
        forall|i: int|
            0 <= i < code_of(re, base).len() ==> targets_in(
                #[trigger] code_of(re, base)[i],
                base,
                base + code_len(re),
            ),
    decreases re,
{
    broadcast use lemma_code_of_len, lemma_code_of_children_len;

    let c = code_of(re, base);
    match re {
        Re::Char(ch) => {
            assert forall|i: int| 0 <= i < c.len() implies targets_in(
                #[trigger] c[i],
                base,
                base + code_len(re),
            ) by {
                assert(c[i] == Instruction::Char(ch));
            }
        },
        Re::Plus(e) => {
            lemma_code_targets(*e, base);
            assert forall|i: int| 0 <= i < c.len() implies targets_in(
                #[trigger] c[i],
                base,
                base + code_len(re),
            ) by {
                if i < code_len(*e) {
                    assert(c[i] == code_of(*e, base)[i]);
                }
            }
        },
        Re::Star(e) => {
            lemma_code_targets(*e, base + 1);
            assert forall|i: int| 0 <= i < c.len() implies targets_in(
                #[trigger] c[i],
                base,
                base + code_len(re),
            ) by {
                if 1 <= i < code_len(*e) + 1 {
                    assert(c[i] == code_of(*e, base + 1)[i - 1]);
                }
            }
        },
        Re::Question(e) => {
            lemma_code_targets(*e, base + 1);
            assert forall|i: int| 0 <= i < c.len() implies targets_in(
                #[trigger] c[i],
                base,
                base + code_len(re),
            ) by {
                if 1 <= i {
                    assert(c[i] == code_of(*e, base + 1)[i - 1]);
                }
            }
        },
        Re::Or(l, r) => {
            lemma_code_targets(*l, base + 1);
            lemma_code_targets(*r, base + code_len(*l) + 2);
            assert forall|i: int| 0 <= i < c.len() implies targets_in(
                #[trigger] c[i],
                base,
                base + code_len(re),
            ) by {
                if 1 <= i < code_len(*l) + 1 {
                    assert(c[i] == code_of(*l, base + 1)[i - 1]);
                } else if code_len(*l) + 2 <= i {
                    assert(c[i] == code_of(*r, base + code_len(*l) + 2)[i - code_len(*l) - 2]);
                }
            }
        },
        Re::Sequence(s) => {
            lemma_code_children_targets(s, base);
            assert forall|i: int| 0 <= i < c.len() implies targets_in(
                #[trigger] c[i],
                base,
                base + code_len(re),
            ) by {
                assert(c[i] == code_of_children(s, base)[i]);
                assert(code_len(re) == code_len_children(s));
            }
        },
    }
}

/// [`lemma_code_targets`] for a list of sub-trees lowered one after another.
pub proof fn lemma_code_children_targets(s: Seq<Re>, base: int)
    requires
        0 <= base,
        base + code_len_children(s) <= usize::MAX,
    ensures
        forall|i: int|
            0 <= i < code_of_children(s, base).len() ==> targets_in(
                #[trigger] code_of_children(s, base)[i],
                base,
                base + code_len_children(s),
            ),
    decreases s,
{
    broadcast use lemma_code_of_len, lemma_code_of_children_len;

    if s.len() > 0 {
        let front = s.drop_last();
        let mid = base + code_len_children(front);
        lemma_code_children_targets(front, base);
        lemma_code_targets(s.last(), mid);
        let c = code_of_children(s, base);
        assert forall|i: int| 0 <= i < c.len() implies targets_in(
            #[trigger] c[i],
            base,
            base + code_len_children(s),
        ) by {
            if i < code_len_children(front) {
                assert(c[i] == code_of_children(front, base)[i]);
            } else {
                assert(c[i] == code_of(s.last(), mid)[i - code_len_children(front)]);
            }
        }
    }
}

/// How many split instructions a program holds.
pub open spec fn split_count(p: Seq<Instruction>) -> nat
    decreases p,
{
    if p.len() == 0 {
        0
    } else {
        split_count(p.drop_last()) + (if p.last() is Split {
            1nat
        } else {
            0nat
        })
    }
}

/// How many jump instructions a program holds.
pub open spec fn jump_count(p: Seq<Instruction>) -> nat
    decreases p,
{
    if p.len() == 0 {
        0
    } else {
        jump_count(p.drop_last()) + (if p.last() is Jump {
            1nat
        } else {
            0nat
        })
    }
}

/// The splits the lowering rules call for: one for each quantifier or
/// alternation node.
pub open spec fn splits_of(re: Re) -> nat
    decreases re,
{
    match re {
        Re::Char(_) => 0,
        Re::Plus(e) => splits_of(*e) + 1,
        Re::Star(e) => splits_of(*e) + 1,
        Re::Question(e) => splits_of(*e) + 1,
        Re::Or(l, r) => splits_of(*l) + splits_of(*r) + 1,
        Re::Sequence(s) => splits_of_children(s),
    }
}

/// [`splits_of`] summed over a list of sub-trees.
pub open spec fn splits_of_children(s: Seq<Re>) -> nat
    decreases s,
{
    if s.len() == 0 {
        0
    } else {
        splits_of_children(s.drop_last()) + splits_of(s.last())
    }
}

/// The jumps the lowering rules call for: one for each star or alternation
/// node.
pub open spec fn jumps_of(re: Re) -> nat
    decreases re,
{
    match re {
        Re::Char(_) => 0,
        Re::Plus(e) => jumps_of(*e),
        Re::Star(e) => jumps_of(*e) + 1,
        Re::Question(e) => jumps_of(*e),
        Re::Or(l, r) => jumps_of(*l) + jumps_of(*r) + 1,
        Re::Sequence(s) => jumps_of_children(s),
    }
}

/// [`jumps_of`] summed over a list of sub-trees.
pub open spec fn jumps_of_children(s: Seq<Re>) -> nat
    decreases s,
{
    if s.len() == 0 {
        0
    } else {
        jumps_of_children(s.drop_last()) + jumps_of(s.last())
    }
}

/// Split and jump counts add up over concatenated programs.
proof fn lemma_counts_concat(a: Seq<Instruction>, b: Seq<Instruction>)
    ensures
        split_count(a + b) == split_count(a) + split_count(b),
        jump_count(a + b) == jump_count(a) + jump_count(b),
    decreases b.len(),
{
    if b.len() == 0 {
        assert(a + b =~= a);
    } else {
        lemma_counts_concat(a, b.drop_last());
        assert((a + b).drop_last() =~= a + b.drop_last());
        assert((a + b).last() == b.last());
    }
}

/// Split and jump counts of a one-instruction program.
proof fn lemma_counts_single(inst: Instruction)
    ensures
        split_count(seq![inst]) == if inst is Split {
            1nat
        } else {
            0nat
        },
        jump_count(seq![inst]) == if inst is Jump {
            1nat
        } else {
            0nat
        },
{
    assert(seq![inst].drop_last().len() == 0);
    assert(split_count(seq![inst].drop_last()) == 0);
    assert(jump_count(seq![inst].drop_last()) == 0);
    assert(seq![inst].last() == inst);
}

/// The lowering of a tree emits exactly one split for each of its
/// quantifier and alternation nodes, and exactly one jump for each of its
/// star and alternation nodes: no more branch instructions than the rules
/// require.
pub proof fn lemma_branch_emission(re: Re, base: int)
    ensures
        split_count(code_of(re, base)) == splits_of(re),
        jump_count(code_of(re, base)) == jumps_of(re),
    decreases re,
{
    match re {
        Re::Char(c) => {
            lemma_counts_single(Instruction::Char(c));
        },
        Re::Plus(e) => {
            lemma_branch_emission(*e, base);
            let split = Instruction::Split(base as usize, (base + code_len(*e) + 1) as usize);
            lemma_counts_single(split);
            lemma_counts_concat(code_of(*e, base), seq![split]);
        },
        Re::Star(e) => {
            lemma_branch_emission(*e, base + 1);
            let split = Instruction::Split((base + 1) as usize, (base + code_len(*e) + 2) as usize);
            let jmp = Instruction::Jump(base as usize);
            lemma_counts_single(split);
            lemma_counts_single(jmp);
            lemma_counts_concat(seq![split], code_of(*e, base + 1));
            lemma_counts_concat(seq![split] + code_of(*e, base + 1), seq![jmp]);
        },
        Re::Question(e) => {
            lemma_branch_emission(*e, base + 1);
            let split = Instruction::Split((base + 1) as usize, (base + code_len(*e) + 1) as usize);
            lemma_counts_single(split);
            lemma_counts_concat(seq![split], code_of(*e, base + 1));
        },
        Re::Or(l, r) => {
            lemma_branch_emission(*l, base + 1);
            lemma_branch_emission(*r, base + code_len(*l) + 2);
            let split = Instruction::Split((base + 1) as usize, (base + code_len(*l) + 2) as usize);
            let jmp = Instruction::Jump((base + code_len(*l) + code_len(*r) + 2) as usize);
            lemma_counts_single(split);
            lemma_counts_single(jmp);
            lemma_counts_concat(seq![split], code_of(*l, base + 1));
            lemma_counts_concat(seq![split] + code_of(*l, base + 1), seq![jmp]);
            lemma_counts_concat(
                seq![split] + code_of(*l, base + 1) + seq![jmp],
                code_of(*r, base + code_len(*l) + 2),
            );
        },
        Re::Sequence(s) => {
            lemma_branch_emission_children(s, base);
        },
    }
}

/// [`lemma_branch_emission`] for a list of sub-trees.
pub proof fn lemma_branch_emission_children(s: Seq<Re>, base: int)
    ensures
        split_count(code_of_children(s, base)) == splits_of_children(s),
        jump_count(code_of_children(s, base)) == jumps_of_children(s),
    decreases s,
{
    if s.len() > 0 {
        let front = s.drop_last();
        lemma_branch_emission_children(front, base);
        lemma_branch_emission(s.last(), base + code_len_children(front));
        lemma_counts_concat(
            code_of_children(front, base),
            code_of(s.last(), base + code_len_children(front)),
        );
    }
}

/// Lowers one tree at the current program counter, appending its code;
/// returns exactly the outcome of [`gen_spec`] at that address.
#[verifier::rlimit(100)]
#[verifier::loop_isolation(false)]
fn gen_expr(ast: &AST, pc: &mut usize, insts: &mut Vec<Instruction>) -> (r: Result<
    (),
    CodeGenError,
>)
    requires
        *old(pc) == old(insts)@.len(),
    ensures
        match r {
            Ok(_) => {
                &&& gen_spec(ast@, *old(pc) as int) == Ok::<(), CodeGenError>(())
                &&& final(insts)@ == old(insts)@ + code_of(ast@, *old(pc) as int)
                &&& *final(pc) == *old(pc) + code_len(ast@)
                &&& *final(pc) == final(insts)@.len()
            },
            Err(e) => gen_spec(ast@, *old(pc) as int) == Err::<(), CodeGenError>(e),
        },
    decreases ast, 1nat,
{
    broadcast use lemma_code_of_len, lemma_code_of_children_len;

    let ghost base = *old(pc) as int;
    match ast {
        AST::Char(c) => {
            let overflow = || -> (e: CodeGenError)
                ensures
                    e == CodeGenError::ProgramCounterOverflow,
                { CodeGenError::ProgramCounterOverflow };
            match safe_add(pc, &1, overflow) {
                Ok(_) => {},
                Err(e) => {
                    return Err(e);
                },
            }
            insts.push(Instruction::Char(*c));
            proof {
                assert(insts@ =~= old(insts)@ + code_of(ast@, base));
            }
            Ok(())
        },
        AST::Plus(_) => gen_plus(ast, pc, insts),
        AST::Star(_) => gen_star(ast, pc, insts),
        AST::Question(_) => gen_question(ast, pc, insts),
        AST::Or(_, _) => gen_or(ast, pc, insts),
        AST::Sequence(v) => {
            let ghost vc = view_children(v@);
            let ghost pre = old(insts)@;
            proof {
                lemma_view_children(v@);
                assert(pre + code_of_children(vc.subrange(0, 0), base) =~= pre);
            }
            let mut idx: usize = 0;
            while idx < v.len()
                invariant
                    idx <= v.len(),
                    vc == view_children(v@),
                    vc.len() == v@.len(),
                    forall|k: int| 0 <= k < v@.len() ==> vc[k] == #[trigger] v@[k].view(),
                    gen_children_spec(vc.subrange(0, idx as int), base) == Ok::<
                        (),
                        CodeGenError,
                    >(()),
                    insts@ == pre + code_of_children(vc.subrange(0, idx as int), base),
                    *pc == insts@.len(),
                    *pc == base + code_len_children(vc.subrange(0, idx as int)),
                decreases v.len() - idx,
            {
                let ghost sub_i = vc.subrange(0, idx as int);
                let child = &v[idx];
                proof {
                    assert(*ast == AST::Sequence(*v));
                    assert(decreases_to!(AST::Sequence(*v) => *v));
                    assert(decreases_to!(*v => v@));
                    assert(decreases_to!(v@ => v@[idx as int]));
                }
                match gen_expr(child, pc, insts) {
                    Ok(_) => {
                        proof {
                            let sub_i1 = vc.subrange(0, idx + 1);
                            assert(sub_i1.drop_last() =~= sub_i);
                            assert(sub_i1.last() == vc[idx as int]);
                            assert(insts@ =~= pre + code_of_children(sub_i1, base));
                        }
                    },
                    Err(err) => {
                        proof {
                            lemma_gen_children_err(vc, idx as int, vc.len() as int, base, err);
                            assert(vc.subrange(0, vc.len() as int) =~= vc);
                        }
                        return Err(err);
                    },
                }
                idx += 1;
            }
            proof {
                assert(vc.subrange(0, vc.len() as int) =~= vc);
            }
            Ok(())
        },
    }
}

/// Lowers a one-or-more repetition: the inner code, then a split that
/// re-enters it or falls through to the exit.
#[verifier::rlimit(100)]
fn gen_plus(ast: &AST, pc: &mut usize, insts: &mut Vec<Instruction>) -> (r: Result<
    (),
    CodeGenError,
>)
    requires
        ast is Plus,
        *old(pc) == old(insts)@.len(),
    ensures
        match r {
            Ok(_) => {
                &&& gen_spec(ast@, *old(pc) as int) == Ok::<(), CodeGenError>(())
                &&& final(insts)@ == old(insts)@ + code_of(ast@, *old(pc) as int)
                &&& *final(pc) == *old(pc) + code_len(ast@)
                &&& *final(pc) == final(insts)@.len()
            },
            Err(e) => gen_spec(ast@, *old(pc) as int) == Err::<(), CodeGenError>(e),
        },
    decreases ast, 0nat,
{
    broadcast use lemma_code_of_len;

    let ghost base = *old(pc) as int;
    match ast {
        AST::Plus(e) => {
            let start = *pc;
            match gen_expr(e, pc, insts) {
                Ok(_) => {},
                Err(err) => {
                    return Err(err);
                },
            }
            let overflow = || -> (er: CodeGenError)
                ensures
                    er == CodeGenError::ProgramCounterOverflow,
                { CodeGenError::ProgramCounterOverflow };
            match safe_add(pc, &1, overflow) {
                Ok(_) => {},
                Err(err) => {
                    return Err(err);
                },
            }
            insts.push(Instruction::Split(start, *pc));
            proof {
                assert(insts@ =~= old(insts)@ + code_of(ast@, base));
            }
            Ok(())
        },
        _ => {
            proof {
                assert(false);
            }
            Err(CodeGenError::ProgramCounterOverflow)
        },
    }
}

/// Lowers a zero-or-more repetition: a split that enters the inner code or
/// skips past it, the inner code, and a jump back to the split.
#[verifier::rlimit(100)]
fn gen_star(ast: &AST, pc: &mut usize, insts: &mut Vec<Instruction>) -> (r: Result<
    (),
    CodeGenError,
>)
    requires
        ast is Star,
        *old(pc) == old(insts)@.len(),
    ensures
        match r {
            Ok(_) => {
                &&& gen_spec(ast@, *old(pc) as int) == Ok::<(), CodeGenError>(())
                &&& final(insts)@ == old(insts)@ + code_of(ast@, *old(pc) as int)
                &&& *final(pc) == *old(pc) + code_len(ast@)
                &&& *final(pc) == final(insts)@.len()
            },
            Err(e) => gen_spec(ast@, *old(pc) as int) == Err::<(), CodeGenError>(e),
        },
    decreases ast, 0nat,
{
    broadcast use lemma_code_of_len;

    let ghost base = *old(pc) as int;
    match ast {
        AST::Star(e) => {
            let split_pos = *pc;
            let fail = || -> (er: CodeGenError)
                ensures
                    er == CodeGenError::FailStar,
                { CodeGenError::FailStar };
            match safe_add(pc, &1, fail) {
                Ok(_) => {},
                Err(err) => {
                    return Err(err);
                },
            }
            let enter = *pc;
            insts.push(Instruction::Split(enter, 0));
            match gen_expr(e, pc, insts) {
                Ok(_) => {},
                Err(err) => {
                    return Err(err);
                },
            }
            match safe_add(pc, &1, fail) {
                Ok(_) => {},
                Err(err) => {
                    return Err(err);
                },
            }
            insts.push(Instruction::Jump(split_pos));
            insts[split_pos] = Instruction::Split(enter, *pc);
            proof {
                assert(insts@ =~= old(insts)@ + code_of(ast@, base));
            }
            Ok(())
        },
        _ => {
            proof {
                assert(false);
            }
            Err(CodeGenError::ProgramCounterOverflow)
        },
    }
}

/// Lowers a zero-or-one occurrence: a split that enters the inner code or
/// skips past it, then the inner code.
#[verifier::rlimit(100)]
fn gen_question(ast: &AST, pc: &mut usize, insts: &mut Vec<Instruction>) -> (r: Result<
    (),
    CodeGenError,
>)
    requires
        ast is Question,
        *old(pc) == old(insts)@.len(),
    ensures
        match r {
            Ok(_) => {
                &&& gen_spec(ast@, *old(pc) as int) == Ok::<(), CodeGenError>(())
                &&& final(insts)@ == old(insts)@ + code_of(ast@, *old(pc) as int)
                &&& *final(pc) == *old(pc) + code_len(ast@)
                &&& *final(pc) == final(insts)@.len()
            },
            Err(e) => gen_spec(ast@, *old(pc) as int) == Err::<(), CodeGenError>(e),
        },
    decreases ast, 0nat,
{
    broadcast use lemma_code_of_len;

    let ghost base = *old(pc) as int;
    match ast {
        AST::Question(e) => {
            let split_pos = *pc;
            let fail = || -> (er: CodeGenError)
                ensures
                    er == CodeGenError::FailQuestion,
                { CodeGenError::FailQuestion };
            match safe_add(pc, &1, fail) {
                Ok(_) => {},
                Err(err) => {
                    return Err(err);
                },
            }
            let enter = *pc;
            insts.push(Instruction::Split(enter, 0));
            match gen_expr(e, pc, insts) {
                Ok(_) => {},
                Err(err) => {
                    return Err(err);
                },
            }
            insts[split_pos] = Instruction::Split(enter, *pc);
            proof {
                assert(insts@ =~= old(insts)@ + code_of(ast@, base));
            }
            Ok(())
        },
        _ => {
            proof {
                assert(false);
            }
            Err(CodeGenError::ProgramCounterOverflow)
        },
    }
}

/// Lowers an alternation: a split to the two branch codes, the left code, a
/// jump to the exit, and the right code.
#[verifier::rlimit(100)]
fn gen_or(ast: &AST, pc: &mut usize, insts: &mut Vec<Instruction>) -> (r: Result<
    (),
    CodeGenError,
>)
    requires
        ast is Or,
        *old(pc) == old(insts)@.len(),
    ensures
        match r {
            Ok(_) => {
                &&& gen_spec(ast@, *old(pc) as int) == Ok::<(), CodeGenError>(())
                &&& final(insts)@ == old(insts)@ + code_of(ast@, *old(pc) as int)
                &&& *final(pc) == *old(pc) + code_len(ast@)
                &&& *final(pc) == final(insts)@.len()
            },
            Err(e) => gen_spec(ast@, *old(pc) as int) == Err::<(), CodeGenError>(e),
        },
    decreases ast, 0nat,
{
    broadcast use lemma_code_of_len;

    let ghost base = *old(pc) as int;
    match ast {
        AST::Or(l, r) => {
            let split_pos = *pc;
            let fail = || -> (er: CodeGenError)
                ensures
                    er == CodeGenError::FailOr,
                { CodeGenError::FailOr };
            match safe_add(pc, &1, fail) {
                Ok(_) => {},
                Err(err) => {
                    return Err(err);
                },
            }
            let enter = *pc;
            insts.push(Instruction::Split(enter, 0));
            match gen_expr(l, pc, insts) {
                Ok(_) => {},
                Err(err) => {
                    return Err(err);
                },
            }
            let jump_pos = *pc;
            match safe_add(pc, &1, fail) {
                Ok(_) => {},
                Err(err) => {
                    return Err(err);
                },
            }
            insts.push(Instruction::Jump(0));
            insts[split_pos] = Instruction::Split(enter, *pc);
            match gen_expr(r, pc, insts) {
                Ok(_) => {},
                Err(err) => {
                    return Err(err);
                },
            }
            insts[jump_pos] = Instruction::Jump(*pc);
            proof {
                assert(insts@ =~= old(insts)@ + code_of(ast@, base));
            }
            Ok(())
        },
        _ => {
            proof {
                assert(false);
            }
            Err(CodeGenError::ProgramCounterOverflow)
        },
    }
}

/// The program [`generate`] returns, or the exact error when the address
/// range runs out: the lowered tree followed by one terminal `Match`.
pub open spec fn spec_generate(re: Re) -> Result<Seq<Instruction>, CodeGenError> {
    match gen_spec(re, 0) {
        Err(e) => Err(e),
        Ok(_) => if code_len(re) + 1 > usize::MAX {
            Err(CodeGenError::ProgramCounterOverflow)
        } else {
            Ok(code_of(re, 0).push(Instruction::Match))
        },
    }
}

/// Lowers a tree into an instruction program for the matching machine:
/// exactly the code of [`code_of`] at address zero with a terminal `Match`
/// appended. Succeeds if and only if the program fits the address range; on
/// success every jump and split target lies inside the program.
pub fn generate(ast: &AST) -> (r: Result<Vec<Instruction>, CodeGenError>)
    ensures
        match r {
            Ok(insts) => spec_generate(ast@) == Ok::<Seq<Instruction>, CodeGenError>(insts@),
            Err(e) => spec_generate(ast@) == Err::<Seq<Instruction>, CodeGenError>(e),
        },
        r is Ok <==> code_len(ast@) + 1 <= usize::MAX,
        r matches Ok(insts) ==> forall|i: int|
            0 <= i < insts@.len() ==> targets_in(#[trigger] insts@[i], 0, insts@.len() - 1),
{
    broadcast use lemma_code_of_len;

    proof {
        lemma_gen_spec_ok(ast@, 0);
        if code_len(ast@) + 1 <= usize::MAX {
            lemma_code_targets(ast@, 0);
        }
    }
    let mut pc: usize = 0;
    let mut insts: Vec<Instruction> = Vec::new();
    match gen_expr(ast, &mut pc, &mut insts) {
        Ok(_) => {},
        Err(e) => {
            return Err(e);
        },
    }
    let overflow = || -> (e: CodeGenError)
        ensures
            e == CodeGenError::ProgramCounterOverflow,
        { CodeGenError::ProgramCounterOverflow };
    match safe_add(&mut pc, &1, overflow) {
        Ok(_) => {},
        Err(e) => {
            return Err(e);
        },
    }
    insts.push(Instruction::Match);
    proof {
        assert(insts@ =~= code_of(ast@, 0).push(Instruction::Match));
    }
    Ok(insts)
}

} // verus!

