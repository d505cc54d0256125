//! Loop brackets: nesting depth, partner brackets, and jump resolution.

use vstd::prelude::*;
use crate::ir::Ir;
use crate::token::Token;
use crate::vm::Vm;

verus! {

/// The symbols of a program, payloads forgotten.
pub open spec fn kinds(prog: Seq<Ir>) -> Seq<Token> {
    prog.map_values(|ir: Ir| ir.kind())
}

/// What a symbol does to the nesting depth.
pub open spec fn delta(t: Token) -> int {
    match t {
        Token::Jez => 1,
        Token::Jnez => -1,
        _ => 0,
    }
}

/// The nesting depth after the first `n` symbols of `s`: loop starts minus
/// loop ends among them.
pub open spec fn depth(s: Seq<Token>, n: int) -> int
    decreases n,
{
    if n <= 0 {
        0
    } else {
        depth(s, n - 1) + delta(s[n - 1])
    }
}

/// No prefix of `s` closes more loops than it has opened.
pub open spec fn never_negative(s: Seq<Token>) -> bool {
    forall|n: int| 0 <= n <= s.len() ==> #[trigger] depth(s, n) >= 0
}

/// Every loop end closes a loop that is open, and no loop is left open.
pub open spec fn well_bracketed(s: Seq<Token>) -> bool {
    depth(s, s.len() as int) == 0 && never_negative(s)
}

/// The loop start at `i` and the loop end at `j` are partners: `j` is the
/// first place after `i` where the depth is back to what it was before `i`.
pub open spec fn is_pair(s: Seq<Token>, i: int, j: int) -> bool {
    &&& 0 <= i < j < s.len()
    &&& s[i] == Token::Jez
    &&& s[j] == Token::Jnez
    &&& depth(s, j + 1) == depth(s, i)
    &&& forall|m: int| i < m <= j ==> #[trigger] depth(s, m) > depth(s, i)
}

/// The index of the loop end that closes the loop started at `i`.
pub open spec fn closer(s: Seq<Token>, i: int) -> int {
    choose|j: int| is_pair(s, i, j)
}

/// The index of the loop start that the loop end at `j` closes.
pub open spec fn opener(s: Seq<Token>, j: int) -> int {
    choose|i: int| is_pair(s, i, j)
}

/// The program with every loop bracket's payload set to the index of its
/// partner, and every other instruction as it was.
pub open spec fn link(prog: Seq<Ir>) -> Seq<Ir> {
    Seq::new(
        prog.len(),
        |i: int|
            match prog[i] {
                Ir::Jez(_) => Ir::Jez(closer(kinds(prog), i) as usize),
                Ir::Jnez(_) => Ir::Jnez(opener(kinds(prog), i) as usize),
                other => other,
            },
    )
}

/// Instruction `i` of `prog`, if it is a loop bracket, points at its partner.
pub open spec fn points_at_partner(prog: Seq<Ir>, i: int) -> bool {
    match prog[i] {
        Ir::Jez(t) => is_pair(kinds(prog), i, t as int),
        Ir::Jnez(t) => is_pair(kinds(prog), t as int, i),
        _ => true,
    }
}

/// A program whose brackets are well nested and all point at their partners.
pub open spec fn linked(prog: Seq<Ir>) -> bool {
    &&& well_bracketed(kinds(prog))
    &&& forall|i: int| 0 <= i < prog.len() ==> #[trigger] points_at_partner(prog, i)
}

/// The depth after `n` symbols depends on those `n` symbols only.
pub proof fn lemma_depth_prefix(a: Seq<Token>, b: Seq<Token>, n: int)
    requires
        0 <= n <= a.len(),
        n <= b.len(),
        forall|k: int| 0 <= k < n ==> a[k] == b[k],
    ensures
        depth(a, n) == depth(b, n),
    decreases n,
{
    if n > 0 {
        lemma_depth_prefix(a, b, n - 1);
    }
}

/// The depth never exceeds the number of symbols read, nor falls below its
/// negation.
pub proof fn lemma_depth_bound(s: Seq<Token>, n: int)
    requires
        0 <= n,
    ensures
        -n <= depth(s, n) <= n,
    decreases n,
{
    if n > 0 {
        lemma_depth_bound(s, n - 1);
    }
}

/// Appending one symbol: the final depth moves by that symbol's delta, and
/// the longer sequence never goes negative exactly when the shorter one
/// does not and the new final depth is not negative.
pub proof fn lemma_depth_push(s: Seq<Token>, t: Token)
    ensures
        depth(s.push(t), s.len() as int + 1) == depth(s, s.len() as int) + delta(t),
        never_negative(s.push(t)) <==> never_negative(s) && depth(s, s.len() as int) + delta(t) >= 0,
{
    let u = s.push(t);
    lemma_depth_prefix(s, u, s.len() as int);
    assert(depth(u, s.len() as int + 1) == depth(u, s.len() as int) + delta(u[s.len() as int]));
    if never_negative(u) {
        assert forall|n: int| 0 <= n <= s.len() implies #[trigger] depth(s, n) >= 0 by {
            lemma_depth_prefix(s, u, n);
            assert(depth(u, n) >= 0);
        }
        assert(depth(u, s.len() as int + 1) >= 0);
    }
    if never_negative(s) && depth(s, s.len() as int) + delta(t) >= 0 {
        assert forall|n: int| 0 <= n <= u.len() implies #[trigger] depth(u, n) >= 0 by {
            if n <= s.len() {
                lemma_depth_prefix(s, u, n);
                assert(depth(s, n) >= 0);
            }
        }
    }
}

/// A loop start has at most one partner.
pub proof fn lemma_closer_unique(s: Seq<Token>, i: int, j: int, k: int)
    requires
        is_pair(s, i, j),
        is_pair(s, i, k),
    ensures
        j == k,
{
    if j < k {
        assert(depth(s, j + 1) > depth(s, i));
    } else if k < j {
        assert(depth(s, k + 1) > depth(s, i));
    }
}

/// A loop end has at most one partner.
pub proof fn lemma_opener_unique(s: Seq<Token>, i: int, k: int, j: int)
    requires
        is_pair(s, i, j),
        is_pair(s, k, j),
    ensures
        i == k,
{
    if i < k {
        assert(depth(s, k) > depth(s, i));
    } else if k < i {
        assert(depth(s, i) > depth(s, k));
    }
}

proof fn lemma_find_closer(s: Seq<Token>, i: int, m: int)
    requires
        0 <= i < m <= s.len(),
        s[i] == Token::Jez,
        depth(s, s.len() as int) <= depth(s, i),
        forall|k: int| i < k <= m ==> #[trigger] depth(s, k) > depth(s, i),
    ensures
        exists|j: int| is_pair(s, i, j),
    decreases s.len() - m,
{
    assert(depth(s, m) > depth(s, i));
    assert(m < s.len());
    assert(depth(s, m + 1) == depth(s, m) + delta(s[m]));
    if depth(s, m + 1) > depth(s, i) {
        assert forall|k: int| i < k <= m + 1 implies #[trigger] depth(s, k) > depth(s, i) by {
            if k <= m {
            }
        }
        lemma_find_closer(s, i, m + 1);
    } else {
        assert(is_pair(s, i, m));
    }
}

/// In a well-bracketed sequence every loop start has a partner.
pub proof fn lemma_closer_exists(s: Seq<Token>, i: int)
    requires
        well_bracketed(s),
        0 <= i < s.len(),
        s[i] == Token::Jez,
    ensures
        is_pair(s, i, closer(s, i)),
{
    assert(depth(s, i) >= 0);
    assert(depth(s, i + 1) == depth(s, i) + delta(s[i]));
    assert forall|k: int| i < k <= i + 1 implies #[trigger] depth(s, k) > depth(s, i) by {
        assert(k == i + 1);
    }
    lemma_find_closer(s, i, i + 1);
}

proof fn lemma_find_opener(s: Seq<Token>, j: int, m: int)
    requires
        0 <= m <= j < s.len(),
        s[j] == Token::Jnez,
        0 <= depth(s, j + 1),
        forall|k: int| m <= k <= j ==> #[trigger] depth(s, k) > depth(s, j + 1),
    ensures
        exists|i: int| is_pair(s, i, j),
    decreases m,
{
    assert(depth(s, m) > depth(s, j + 1));
    assert(m > 0);
    assert(depth(s, m) == depth(s, m - 1) + delta(s[m - 1]));
    if depth(s, m - 1) > depth(s, j + 1) {
        assert forall|k: int| m - 1 <= k <= j implies #[trigger] depth(s, k) > depth(s, j + 1) by {
            if k >= m {
            }
        }
        lemma_find_opener(s, j, m - 1);
    } else {
        assert(is_pair(s, m - 1, j));
    }
}

/// In a well-bracketed sequence every loop end has a partner.
pub proof fn lemma_opener_exists(s: Seq<Token>, j: int)
    requires
        well_bracketed(s),
        0 <= j < s.len(),
        s[j] == Token::Jnez,
    ensures
        is_pair(s, opener(s, j), j),
{
    assert(depth(s, j + 1) >= 0);
    assert(depth(s, j + 1) == depth(s, j) + delta(s[j]));
    assert forall|k: int| j <= k <= j implies #[trigger] depth(s, k) > depth(s, j + 1) by {
        assert(k == j);
    }
    lemma_find_opener(s, j, j);
}

/// Linking changes payloads only: the symbols stay what they were.
pub proof fn lemma_link_kinds(prog: Seq<Ir>)
    ensures
        link(prog).len() == prog.len(),
        kinds(link(prog)) == kinds(prog),
        forall|i: int| 0 <= i < prog.len() && !(#[trigger] prog[i]).is_jump() ==> link(prog)[i] == prog[i],
{
    assert(kinds(link(prog)) =~= kinds(prog));
}

/// Linking a well-bracketed program that fits in memory yields a linked
/// program: every loop bracket of the result points at its partner.
pub proof fn lemma_link_linked(prog: Seq<Ir>)
    requires
        well_bracketed(kinds(prog)),
        prog.len() <= usize::MAX,
    ensures
        linked(link(prog)),
{
    let s = kinds(prog);
    let out = link(prog);
    lemma_link_kinds(prog);
    assert forall|i: int| 0 <= i < out.len() implies #[trigger] points_at_partner(out, i) by {
        assert(s[i] == prog[i].kind());
        match prog[i] {
            Ir::Jez(_) => {
                lemma_closer_exists(s, i);
            },
            Ir::Jnez(_) => {
                lemma_opener_exists(s, i);
            },
            _ => {},
        }
    }
}

/// In a linked program the two brackets of a loop point at each other, and
/// the start comes first: the loop start at `i` carries `j` exactly when
/// the loop end at `j` carries `i`, and then `i < j`.
pub proof fn lemma_jumps_mutual(prog: Seq<Ir>, i: usize, j: usize)
    requires
        linked(prog),
        i < prog.len(),
        j < prog.len(),
    ensures
        prog[i as int] == Ir::Jez(j) <==> prog[j as int] == Ir::Jnez(i),
        prog[i as int] == Ir::Jez(j) ==> i < j,
{
    let s = kinds(prog);
    assert(points_at_partner(prog, i as int));
    assert(points_at_partner(prog, j as int));
    assert(s[i as int] == prog[i as int].kind());
    assert(s[j as int] == prog[j as int].kind());
    if prog[i as int] == Ir::Jez(j) {
        match prog[j as int] {
            Ir::Jnez(t) => {
                lemma_opener_unique(s, i as int, t as int, j as int);
            },
            _ => {},
        }
    }
    if prog[j as int] == Ir::Jnez(i) {
        match prog[i as int] {
            Ir::Jez(t) => {
                lemma_closer_unique(s, i as int, j as int, t as int);
            },
            _ => {},
        }
    }
}

/// Entry `t` of the address stack, when the first `i` symbols have been
/// read: it is the loop start that opened nesting level `t`, and the depth
/// has stayed above `t` ever since.
spec fn open_at(s: Seq<Token>, stack: Seq<usize>, t: int, i: int) -> bool {
    &&& 0 <= stack[t] < i
    &&& s[stack[t] as int] == Token::Jez
    &&& depth(s, stack[t] as int) == t
    &&& forall|m: int| stack[t] < m <= i ==> #[trigger] depth(s, m) > t
}

/// Whether the brackets among `tokens` are well nested.
pub fn brackets_balanced(tokens: &Vec<Token>) -> (ok: bool)
    ensures
        ok == well_bracketed(tokens@),
{
    let mut open: usize = 0;
    let mut i: usize = 0;
    while i < tokens.len()
        invariant
            i <= tokens.len(),
            open == depth(tokens@, i as int),
            forall|n: int| 0 <= n <= i ==> #[trigger] depth(tokens@, n) >= 0,
        decreases tokens.len() - i,
    {
        proof {
            lemma_depth_bound(tokens@, i as int);
        }
        match tokens[i] {
            Token::Jez => {
                open += 1;
            },
            Token::Jnez => {
                if open == 0 {
                    assert(depth(tokens@, i + 1) < 0);
                    return false;
                }
                open -= 1;
            },
            _ => {},
        }
        i += 1;
    }
    open == 0
}

impl Vm {
    /// Fills in the jump targets of a well-bracketed program: every loop
    /// start gets the index of the loop end that closes it, every loop end
    /// the index of the loop start it closes.
    pub fn fill_jmp_addr(prog: &mut Vec<Ir>)
        requires
            well_bracketed(kinds(old(prog)@)),
        ensures
            final(prog)@ == link(old(prog)@),
            linked(final(prog)@),
    {
        let ghost before = prog@;
        let ghost s = kinds(prog@);
        let mut stack: Vec<usize> = Vec::new();
        let mut i: usize = 0;
        while i < prog.len()
            invariant
                i <= prog.len(),
                prog@.len() == before.len(),
                s == kinds(before),
                well_bracketed(s),
                forall|k: int| 0 <= k < prog.len() ==> (#[trigger] prog@[k]).kind() == s[k],
                stack@.len() == depth(s, i as int),
                forall|t: int| 0 <= t < stack@.len() ==> #[trigger] open_at(s, stack@, t, i as int),
                forall|k: int|
                    0 <= k < prog.len() && !(#[trigger] s[k]).is_jump() ==> prog@[k] == before[k],
                forall|k: int|
                    0 <= k < i && #[trigger] s[k] == Token::Jnez ==> prog@[k] == link(before)[k],
                forall|k: int, q: int|
                    0 <= q < i && #[trigger] is_pair(s, k, q) ==> prog@[k] == link(before)[k],
            decreases prog.len() - i,
        {
            let ghost prev = prog@;
            let ghost prev_stack = stack@;
            assert(s[i as int] == prog@[i as int].kind());
            assert(before[i as int].kind() == s[i as int]);
            assert(depth(s, i + 1) == depth(s, i as int) + delta(s[i as int]));
            match prog[i] {
                Ir::Jez(_) => {
                    stack.push(i);
                    proof {
                        assert forall|t: int| 0 <= t < stack@.len() implies #[trigger] open_at(
                            s,
                            stack@,
                            t,
                            i + 1,
                        ) by {
                            if t < prev_stack.len() {
                                assert(open_at(s, prev_stack, t, i as int));
                            }
                        }
                    }
                },
                Ir::Jnez(_) => {
                    assert(depth(s, i + 1) >= 0);
                    let addr = stack.pop().unwrap();
                    proof {
                        let top = prev_stack.len() - 1;
                        assert(open_at(s, prev_stack, top, i as int));
                        assert(is_pair(s, addr as int, i as int));
                        lemma_closer_exists(s, addr as int);
                        lemma_closer_unique(s, addr as int, i as int, closer(s, addr as int));
                        lemma_opener_exists(s, i as int);
                        lemma_opener_unique(s, addr as int, opener(s, i as int), i as int);
                        assert(before[addr as int].kind() == Token::Jez);
                    }
                    prog.set(i, Ir::Jnez(addr));
                    prog.set(addr, Ir::Jez(i));
                    proof {
                        assert(prog@[i as int] == link(before)[i as int]);
                        assert(prog@[addr as int] == link(before)[addr as int]);
                        assert forall|t: int| 0 <= t < stack@.len() implies #[trigger] open_at(
                            s,
                            stack@,
                            t,
                            i + 1,
                        ) by {
                            assert(open_at(s, prev_stack, t, i as int));
                        }
                        assert forall|k: int, q: int|
                            0 <= q < i + 1 && #[trigger] is_pair(s, k, q) implies prog@[k] == link(
                            before,
                        )[k] by {
                            if q == i {
                                lemma_opener_unique(s, addr as int, k, i as int);
                            } else {
                                if k == addr {
                                    lemma_closer_unique(s, addr as int, i as int, q);
                                }
                                assert(prog@[k] == prev[k]);
                            }
                        }
                    }
                },
                _ => {
                    proof {
                        assert forall|t: int| 0 <= t < stack@.len() implies #[trigger] open_at(
                            s,
                            stack@,
                            t,
                            i + 1,
                        ) by {
                            assert(open_at(s, prev_stack, t, i as int));
                        }
                    }
                },
            }
            i += 1;
        }
        proof {
            lemma_link_kinds(before);
            assert forall|k: int| 0 <= k < prog@.len() implies prog@[k] == link(before)[k] by {
                assert(prog@[k].kind() == s[k]);
                assert(before[k].kind() == s[k]);
                if s[k] == Token::Jez {
                    lemma_closer_exists(s, k);
                    assert(is_pair(s, k, closer(s, k)));
                } else if s[k] == Token::Jnez {
                } else {
                    assert(!s[k].is_jump());
                }
            }
            assert(prog@ =~= link(before));
            lemma_link_linked(before);
        }
    }
}

} // verus!
