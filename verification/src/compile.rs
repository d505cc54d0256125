//! From source text to a linked program.

use vstd::prelude::*;
use crate::ir::Ir;
use crate::jumps::{
    closer, delta, depth, is_pair, kinds, lemma_closer_exists, lemma_closer_unique,
    lemma_depth_push, lemma_opener_exists, lemma_opener_unique, link, linked, never_negative,
    opener, well_bracketed,
};
use crate::machine::clear_loop;
use crate::rle::{extends_run, lemma_make, merge, merged};
use crate::token::{tokens_of, Token};
use crate::vm::Vm;

verus! {

/// The program a token sequence compiles to: its run-length encoding with
/// the jump targets filled in.
pub open spec fn compiled(tokens: Seq<Token>) -> Seq<Ir> {
    link(merged(tokens))
}

/// Merging keeps the brackets as they are: the encoding ends at the same
/// depth as the token sequence, and its depth goes negative somewhere
/// exactly when that of the token sequence does.
pub proof fn lemma_merged_depth(tokens: Seq<Token>)
    ensures
        depth(kinds(merged(tokens)), merged(tokens).len() as int) == depth(
            tokens,
            tokens.len() as int,
        ),
        never_negative(kinds(merged(tokens))) <==> never_negative(tokens),
        well_bracketed(kinds(merged(tokens))) <==> well_bracketed(tokens),
    decreases tokens.len(),
{
    if tokens.len() == 0 {
        assert(kinds(merged(tokens)) =~= tokens);
    } else {
        let rest = tokens.drop_last();
        let t = tokens.last();
        let head = merged(rest);
        let out = merged(tokens);
        lemma_merged_depth(rest);
        assert(rest.push(t) =~= tokens);
        lemma_depth_push(rest, t);
        if extends_run(head, t) {
            lemma_make(t, (head.last().payload() + 1) as usize);
            assert(kinds(out) =~= kinds(head));
            assert(delta(t) == 0);
            if never_negative(rest) {
                assert(depth(rest, rest.len() as int) >= 0);
            }
        } else {
            lemma_make(t, 1);
            assert(kinds(out) =~= kinds(head).push(t));
            lemma_depth_push(kinds(head), t);
        }
    }
}

/// The source text `[-]` compiles to the clearing loop: a loop start that
/// points at index 2, one decrement, and a loop end that points at index 0.
pub proof fn lemma_clear_loop_source()
    ensures
        tokens_of("[-]"@) == seq![Token::Jez, Token::Decr, Token::Jnez],
        well_bracketed(tokens_of("[-]"@)),
        compiled(tokens_of("[-]"@)) == clear_loop(),
{
    reveal_strlit("[-]");
    let src = "[-]"@;
    let tokens = seq![Token::Jez, Token::Decr, Token::Jnez];
    assert(tokens_of(src) =~= tokens) by {
        reveal_with_fuel(Seq::filter_map, 4);
        assert(src.drop_last().drop_last().drop_last().len() == 0);
    }
    let prog = merged(tokens);
    assert(prog =~= seq![Ir::Jez(1), Ir::Decr(1), Ir::Jnez(1)]) by {
        reveal_with_fuel(merged, 4);
        assert(tokens.drop_last() =~= seq![Token::Jez, Token::Decr]);
        assert(tokens.drop_last().drop_last() =~= seq![Token::Jez]);
        assert(tokens.drop_last().drop_last().drop_last() =~= Seq::<Token>::empty());
    }
    let s = kinds(prog);
    assert(s =~= tokens);
    assert(is_pair(s, 0, 2) && well_bracketed(s)) by {
        reveal_with_fuel(depth, 4);
    }
    lemma_closer_exists(s, 0);
    lemma_closer_unique(s, 0, 2, closer(s, 0));
    lemma_opener_exists(s, 2);
    lemma_opener_unique(s, 0, opener(s, 2), 2);
    assert(compiled(tokens) =~= clear_loop());
    lemma_merged_depth(tokens);
}

impl Vm {
    /// Compiles a well-bracketed token sequence: merges runs of equal plain
    /// symbols into counted instructions, then fills in the jump targets.
    pub fn compile(tokens: &Vec<Token>) -> (program: Vec<Ir>)
        requires
            well_bracketed(tokens@),
        ensures
            program@ == compiled(tokens@),
            linked(program@),
    {
        let mut program = merge(tokens);
        proof {
            lemma_merged_depth(tokens@);
        }
        Vm::fill_jmp_addr(&mut program);
        program
    }
}

} // verus!
