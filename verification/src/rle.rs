//! Run-length merging of tokens into counted instructions.

use vstd::prelude::*;
use crate::ir::Ir;
use crate::token::Token;

verus! {

/// Whether symbol `t`, read after the instructions `head`, continues the run
/// that the last of them stands for. Loop brackets never continue a run.
pub open spec fn extends_run(head: Seq<Ir>, t: Token) -> bool {
    !t.is_jump() && head.len() > 0 && head.last().kind() == t
}

/// The run-length encoding of a token sequence: every maximal run of equal
/// plain symbols becomes one instruction carrying the run's length, and
/// every loop bracket becomes an instruction of its own with payload 1.
pub open spec fn merged(tokens: Seq<Token>) -> Seq<Ir>
    decreases tokens.len(),
{
    if tokens.len() == 0 {
        Seq::empty()
    } else {
        let head = merged(tokens.drop_last());
        let t = tokens.last();
        if extends_run(head, t) {
            head.update(head.len() - 1, Ir::make(t, (head.last().payload() + 1) as usize))
        } else {
            head.push(Ir::make(t, 1))
        }
    }
}

/// The symbols one instruction stands for.
pub open spec fn run_of(ir: Ir) -> Seq<Token> {
    Seq::new(ir.width(), |i: int| ir.kind())
}

/// The token sequence a program stands for, each instruction written out
/// as many times as its width says.
pub open spec fn expand(prog: Seq<Ir>) -> Seq<Token>
    decreases prog.len(),
{
    if prog.len() == 0 {
        Seq::empty()
    } else {
        expand(prog.drop_last()) + run_of(prog.last())
    }
}

/// Whether instruction `i` could not have been merged into the one before
/// it: it is a loop bracket, or the two differ in kind.
pub open spec fn starts_run(prog: Seq<Ir>, i: int) -> bool {
    prog[i].is_jump() || prog[i - 1].kind() != prog[i].kind()
}

/// A program in which no run could be longer: every repeat count is at
/// least 1, every loop bracket carries 1, and no plain instruction follows
/// one of its own kind.
pub open spec fn compact(prog: Seq<Ir>) -> bool {
    &&& forall|i: int| 0 <= i < prog.len() ==> (#[trigger] prog[i]).payload() >= 1
    &&& forall|i: int| 0 <= i < prog.len() && (#[trigger] prog[i]).is_jump() ==> prog[i].payload() == 1
    &&& forall|i: int| 0 < i < prog.len() ==> #[trigger] starts_run(prog, i)
}

/// How often symbol `t` occurs in a token sequence.
pub open spec fn occurrences(tokens: Seq<Token>, t: Token) -> nat
    decreases tokens.len(),
{
    if tokens.len() == 0 {
        0
    } else {
        occurrences(tokens.drop_last(), t) + if tokens.last() == t {
            1nat
        } else {
            0nat
        }
    }
}

/// The sum of the widths of the instructions of kind `t` in a program.
pub open spec fn total_width(prog: Seq<Ir>, t: Token) -> nat
    decreases prog.len(),
{
    if prog.len() == 0 {
        0
    } else {
        total_width(prog.drop_last(), t) + if prog.last().kind() == t {
            prog.last().width()
        } else {
            0nat
        }
    }
}

/// What `Ir::make` builds has the symbol and the payload it was given.
pub proof fn lemma_make(t: Token, n: usize)
    ensures
        Ir::make(t, n).kind() == t,
        Ir::make(t, n).payload() == n,
        Ir::make(t, n).is_jump() == t.is_jump(),
{
}

/// Payloads of an encoding are bounded: every one is at least 1 and at most
/// the number of tokens, every loop bracket carries exactly 1, and there are
/// no more instructions than tokens.
pub proof fn lemma_merged_bounds(tokens: Seq<Token>)
    requires
        tokens.len() <= usize::MAX,
    ensures
        merged(tokens).len() <= tokens.len(),
        tokens.len() > 0 ==> merged(tokens).len() > 0,
        forall|i: int|
            0 <= i < merged(tokens).len() ==> 1 <= (#[trigger] merged(tokens)[i]).payload()
                <= tokens.len(),
        forall|i: int|
            0 <= i < merged(tokens).len() && (#[trigger] merged(tokens)[i]).is_jump()
                ==> merged(tokens)[i].payload() == 1,
    decreases tokens.len(),
{
    if tokens.len() > 0 {
        let rest = tokens.drop_last();
        let head = merged(rest);
        let t = tokens.last();
        let out = merged(tokens);
        lemma_merged_bounds(rest);
        if extends_run(head, t) {
            let p = head.last().payload();
            lemma_make(t, (p + 1) as usize);
            assert forall|i: int| 0 <= i < out.len() implies 1 <= (#[trigger] out[i]).payload()
                <= tokens.len() && (out[i].is_jump() ==> out[i].payload() == 1) by {
                if i < out.len() - 1 {
                    assert(out[i] == head[i]);
                }
            }
        } else {
            lemma_make(t, 1);
            assert forall|i: int| 0 <= i < out.len() implies 1 <= (#[trigger] out[i]).payload()
                <= tokens.len() && (out[i].is_jump() ==> out[i].payload() == 1) by {
                if i < out.len() - 1 {
                    assert(out[i] == head[i]);
                }
            }
        }
    }
}

/// Merging loses nothing: the encoding of a sequence that fits in memory
/// expands to the sequence it was made from.
pub proof fn lemma_merged_round_trip(tokens: Seq<Token>)
    requires
        tokens.len() <= usize::MAX,
    ensures
        expand(merged(tokens)) == tokens,
    decreases tokens.len(),
{
    if tokens.len() > 0 {
        let rest = tokens.drop_last();
        let head = merged(rest);
        let t = tokens.last();
        let out = merged(tokens);
        lemma_merged_round_trip(rest);
        lemma_merged_bounds(rest);
        if extends_run(head, t) {
            let old_last = head.last();
            let p = old_last.payload();
            let new_last = Ir::make(t, (p + 1) as usize);
            lemma_make(t, (p + 1) as usize);
            assert(out.last() == new_last);
            assert(new_last.width() == old_last.width() + 1);
            assert(out.drop_last() =~= head.drop_last());
            assert(run_of(new_last) =~= run_of(old_last).push(t));
            assert(expand(head) == expand(head.drop_last()) + run_of(old_last));
            assert(expand(out) == expand(head.drop_last()) + run_of(new_last));
            assert(expand(out) =~= expand(head).push(t));
        } else {
            lemma_make(t, 1);
            assert(out.drop_last() =~= head);
            assert(run_of(out.last()) =~= seq![t]);
            assert(expand(out) =~= expand(head).push(t));
        }
        assert(rest.push(t) =~= tokens);
    }
}

/// Merging leaves no run that could be longer: the encoding is compact.
pub proof fn lemma_merged_compact(tokens: Seq<Token>)
    requires
        tokens.len() <= usize::MAX,
    ensures
        compact(merged(tokens)),
    decreases tokens.len(),
{
    lemma_merged_bounds(tokens);
    if tokens.len() > 0 {
        let rest = tokens.drop_last();
        let head = merged(rest);
        let t = tokens.last();
        let out = merged(tokens);
        lemma_merged_compact(rest);
        lemma_merged_bounds(rest);
        if extends_run(head, t) {
            lemma_make(t, (head.last().payload() + 1) as usize);
            assert forall|i: int| 0 < i < out.len() implies #[trigger] starts_run(out, i) by {
                assert(starts_run(head, i));
                assert(out[i - 1] == head[i - 1]);
                assert(out[i].kind() == head[i].kind());
            }
        } else {
            lemma_make(t, 1);
            assert forall|i: int| 0 < i < out.len() implies #[trigger] starts_run(out, i) by {
                assert(out[i - 1] == head[i - 1]);
                if i < out.len() - 1 {
                    assert(starts_run(head, i));
                    assert(out[i] == head[i]);
                }
            }
        }
    }
}

/// Two instructions with the same symbol and the same payload are the same.
pub proof fn lemma_same_kind_and_payload(x: Ir, y: Ir)
    requires
        x.kind() == y.kind(),
        x.payload() == y.payload(),
    ensures
        x == y,
{
}

/// A non-empty compact program ends in a run of its last instruction's
/// symbol, at least one symbol long, and stays compact without it.
pub proof fn lemma_compact_last(prog: Seq<Ir>)
    requires
        compact(prog),
        prog.len() > 0,
    ensures
        compact(prog.drop_last()),
        prog.last().width() >= 1,
        expand(prog).len() == expand(prog.drop_last()).len() + prog.last().width(),
        expand(prog).last() == prog.last().kind(),
{
    let head = prog.drop_last();
    assert(prog[prog.len() - 1].payload() >= 1);
    assert forall|i: int| 0 < i < head.len() implies #[trigger] starts_run(head, i) by {
        assert(starts_run(prog, i));
    }
    assert forall|i: int| 0 <= i < head.len() implies (#[trigger] head[i]).payload() >= 1 && (
    head[i].is_jump() ==> head[i].payload() == 1) by {
        assert(head[i] == prog[i]);
    }
}

/// Run-length encodings are unique: two compact programs that expand to the
/// same token sequence are the same program. So the encoding of a token
/// sequence is the one compact program that expands to it.
pub proof fn lemma_compact_unique(a: Seq<Ir>, b: Seq<Ir>)
    requires
        compact(a),
        compact(b),
        expand(a) == expand(b),
    ensures
        a == b,
    decreases a.len(),
{
    if a.len() == 0 || b.len() == 0 {
        if a.len() > 0 {
            lemma_compact_last(a);
        }
        if b.len() > 0 {
            lemma_compact_last(b);
        }
        assert(a =~= b);
    } else {
        let x = a.last();
        let y = b.last();
        let a1 = a.drop_last();
        let b1 = b.drop_last();
        let e = expand(a);
        lemma_compact_last(a);
        lemma_compact_last(b);
        assert(e == expand(a1) + run_of(x));
        assert(e == expand(b1) + run_of(y));
        assert(x.kind() == y.kind());
        if x.width() < y.width() {
            let p = expand(a1).len() - 1;
            assert(e[p] == run_of(y)[p - expand(b1).len()]);
            assert(a1.len() > 0);
            lemma_compact_last(a1);
            assert(e[p] == expand(a1).last());
            assert(starts_run(a, a.len() - 1));
            assert(false);
        } else if y.width() < x.width() {
            let p = expand(b1).len() - 1;
            assert(e[p] == run_of(x)[p - expand(a1).len()]);
            assert(b1.len() > 0);
            lemma_compact_last(b1);
            assert(e[p] == expand(b1).last());
            assert(starts_run(b, b.len() - 1));
            assert(false);
        } else {
            assert(expand(a1) =~= e.subrange(0, expand(a1).len() as int));
            assert(expand(b1) =~= e.subrange(0, expand(b1).len() as int));
            lemma_compact_unique(a1, b1);
            assert(x.payload() == y.payload());
            lemma_same_kind_and_payload(x, y);
            assert(a =~= a1.push(x));
            assert(b =~= b1.push(y));
        }
    }
}

/// Merging preserves counts: for every symbol, the widths of the
/// instructions of that kind add up to the number of times the symbol
/// occurs in the input. For a plain symbol the width is the repeat count;
/// for a loop bracket it is 1, so brackets are counted one by one.
pub proof fn lemma_merged_preserves_counts(tokens: Seq<Token>, t: Token)
    requires
        tokens.len() <= usize::MAX,
    ensures
        total_width(merged(tokens), t) == occurrences(tokens, t),
    decreases tokens.len(),
{
    if tokens.len() > 0 {
        let rest = tokens.drop_last();
        let head = merged(rest);
        let last = tokens.last();
        let out = merged(tokens);
        lemma_merged_preserves_counts(rest, t);
        lemma_merged_bounds(rest);
        if extends_run(head, last) {
            let p = head.last().payload();
            lemma_make(last, (p + 1) as usize);
            assert(out.last().width() == head.last().width() + 1);
            assert(out.drop_last() =~= head.drop_last());
            assert(total_width(head, t) == total_width(head.drop_last(), t) + if last == t {
                head.last().width()
            } else {
                0nat
            });
        } else {
            lemma_make(last, 1);
            assert(out.last().width() == 1);
            assert(out.drop_last() =~= head);
        }
    }
}

/// Encodes a token sequence by run length.
pub fn merge(tokens: &Vec<Token>) -> (prog: Vec<Ir>)
    ensures
        prog@ == merged(tokens@),
{
    let mut prog: Vec<Ir> = Vec::new();
    let mut i: usize = 0;
    while i < tokens.len()
        invariant
            i <= tokens.len(),
            prog@ == merged(tokens@.take(i as int)),
            forall|k: int| 0 <= k < prog.len() ==> (#[trigger] prog@[k]).payload() <= i,
        decreases tokens.len() - i,
    {
        let t = tokens[i];
        let n = prog.len();
        proof {
            assert(tokens@.take(i + 1).drop_last() =~= tokens@.take(i as int));
        }
        let mut fresh = true;
        if n > 0 {
            let last = prog[n - 1];
            if t != Token::Jez && t != Token::Jnez && last.token() == t {
                prog.set(n - 1, Ir::from((t, last.arg() + 1)));
                fresh = false;
            }
        }
        if fresh {
            prog.push(Ir::from((t, 1)));
        }
        i += 1;
    }
    proof {
        assert(tokens@.take(tokens@.len() as int) =~= tokens@);
    }
    prog
}

} // verus!
