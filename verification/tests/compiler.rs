use tape_vm::ir::Ir;
use tape_vm::jumps::brackets_balanced;
use tape_vm::rle::merge;
use tape_vm::token::Token;
use tape_vm::vm::Vm;

fn compile_source(src: &str) -> Vec<Ir> {
    let tokens = Vm::parse(src);
    assert!(brackets_balanced(&tokens));
    Vm::compile(&tokens)
}

#[test]
fn ir_from_pairs_symbol_and_payload() {
    assert_eq!(Ir::from((Token::ShiftL, 1)), Ir::ShiftL(1));
    assert_eq!(Ir::from((Token::ShiftR, 2)), Ir::ShiftR(2));
    assert_eq!(Ir::from((Token::Incr, 3)), Ir::Incr(3));
    assert_eq!(Ir::from((Token::Decr, 4)), Ir::Decr(4));
    assert_eq!(Ir::from((Token::Write, 5)), Ir::Write(5));
    assert_eq!(Ir::from((Token::Read, 6)), Ir::Read(6));
    assert_eq!(Ir::from((Token::Jez, 7)), Ir::Jez(7));
    assert_eq!(Ir::from((Token::Jnez, 8)), Ir::Jnez(8));
}

#[test]
fn ir_gives_back_symbol_and_payload() {
    assert_eq!(Ir::Incr(3).token(), Token::Incr);
    assert_eq!(Ir::Incr(3).arg(), 3);
    assert_eq!(Ir::Jnez(9).token(), Token::Jnez);
    assert_eq!(Ir::Jnez(9).arg(), 9);
}

#[test]
fn merge_three_increments_into_one() {
    assert_eq!(merge(&Vm::parse("+++")), vec![Ir::Incr(3)]);
}

#[test]
fn merge_of_nothing_is_nothing() {
    assert_eq!(merge(&Vec::new()), Vec::<Ir>::new());
}

#[test]
fn merge_splits_runs_where_the_symbol_changes() {
    assert_eq!(
        merge(&Vm::parse("++--->>.,,+")),
        vec![
            Ir::Incr(2),
            Ir::Decr(3),
            Ir::ShiftR(2),
            Ir::Write(1),
            Ir::Read(2),
            Ir::Incr(1),
        ]
    );
}

#[test]
fn merge_never_merges_brackets() {
    assert_eq!(
        merge(&Vm::parse("[[]]")),
        vec![Ir::Jez(1), Ir::Jez(1), Ir::Jnez(1), Ir::Jnez(1)]
    );
    assert_eq!(merge(&Vm::parse("]][")), vec![Ir::Jnez(1), Ir::Jnez(1), Ir::Jez(1)]);
}

#[test]
fn merge_does_not_join_runs_across_a_bracket() {
    assert_eq!(
        merge(&Vm::parse("++[++]++")),
        vec![Ir::Incr(2), Ir::Jez(1), Ir::Incr(2), Ir::Jnez(1), Ir::Incr(2)]
    );
}

#[test]
fn merge_preserves_counts() {
    let tokens = Vm::parse("+++>+<<[-]++[[>>]]+.");
    let prog = merge(&tokens);
    let kinds = [
        Token::ShiftL,
        Token::ShiftR,
        Token::Incr,
        Token::Decr,
        Token::Write,
        Token::Read,
        Token::Jez,
        Token::Jnez,
    ];
    for kind in kinds {
        let in_tokens = tokens.iter().filter(|t| **t == kind).count();
        let in_prog: usize = prog
            .iter()
            .filter(|ir| ir.token() == kind)
            .map(|ir| if kind == Token::Jez || kind == Token::Jnez { 1 } else { ir.arg() })
            .sum();
        assert_eq!(in_prog, in_tokens);
    }
    assert_eq!(
        prog.iter().filter(|ir| ir.token() == Token::Incr).map(|ir| ir.arg()).sum::<usize>(),
        7
    );
}

#[test]
fn merge_expands_back_to_its_input() {
    let tokens = Vm::parse("+++>+<<[-]++[[>>]]+.,,");
    let mut expanded = Vec::new();
    for ir in merge(&tokens) {
        let width = match ir.token() {
            Token::Jez | Token::Jnez => 1,
            _ => ir.arg(),
        };
        for _ in 0..width {
            expanded.push(ir.token());
        }
    }
    assert_eq!(expanded, tokens);
}

#[test]
fn brackets_balanced_accepts_nested_and_sequential_loops() {
    assert!(brackets_balanced(&Vm::parse("")));
    assert!(brackets_balanced(&Vm::parse("+-><")));
    assert!(brackets_balanced(&Vm::parse("[]")));
    assert!(brackets_balanced(&Vm::parse("[[][]][]")));
}

#[test]
fn brackets_balanced_rejects_unmatched_brackets() {
    assert!(!brackets_balanced(&Vm::parse("[")));
    assert!(!brackets_balanced(&Vm::parse("]")));
    assert!(!brackets_balanced(&Vm::parse("][")));
    assert!(!brackets_balanced(&Vm::parse("[[]")));
    assert!(!brackets_balanced(&Vm::parse("[]]")));
    assert!(!brackets_balanced(&Vm::parse("+[-]]+[")));
}

#[test]
fn fill_jmp_addr_pairs_a_single_loop() {
    let mut prog = vec![Ir::Jez(1), Ir::Decr(1), Ir::Jnez(1)];
    Vm::fill_jmp_addr(&mut prog);
    assert_eq!(prog, vec![Ir::Jez(2), Ir::Decr(1), Ir::Jnez(0)]);
}

#[test]
fn fill_jmp_addr_pairs_nested_loops() {
    let mut prog = vec![Ir::Jez(1), Ir::Jez(1), Ir::Jnez(1), Ir::Jnez(1)];
    Vm::fill_jmp_addr(&mut prog);
    assert_eq!(prog, vec![Ir::Jez(3), Ir::Jez(2), Ir::Jnez(1), Ir::Jnez(0)]);
}

#[test]
fn fill_jmp_addr_pairs_loops_in_sequence() {
    let mut prog = vec![Ir::Jez(1), Ir::Jnez(1), Ir::Incr(4), Ir::Jez(1), Ir::Jnez(1)];
    Vm::fill_jmp_addr(&mut prog);
    assert_eq!(prog, vec![Ir::Jez(1), Ir::Jnez(0), Ir::Incr(4), Ir::Jez(4), Ir::Jnez(3)]);
}

#[test]
fn fill_jmp_addr_overwrites_stale_targets() {
    let mut prog = vec![Ir::Jez(77), Ir::Jnez(99)];
    Vm::fill_jmp_addr(&mut prog);
    assert_eq!(prog, vec![Ir::Jez(1), Ir::Jnez(0)]);
}

#[test]
fn fill_jmp_addr_leaves_a_program_without_loops_alone() {
    let mut prog = vec![Ir::Incr(2), Ir::Write(1)];
    Vm::fill_jmp_addr(&mut prog);
    assert_eq!(prog, vec![Ir::Incr(2), Ir::Write(1)]);
}

#[test]
fn compile_merges_and_links() {
    assert_eq!(
        compile_source("+++++[>++++++++<-]>."),
        vec![
            Ir::Incr(5),
            Ir::Jez(6),
            Ir::ShiftR(1),
            Ir::Incr(8),
            Ir::ShiftL(1),
            Ir::Decr(1),
            Ir::Jnez(1),
            Ir::ShiftR(1),
            Ir::Write(1),
        ]
    );
}

#[test]
fn compile_of_the_clearing_loop() {
    assert_eq!(compile_source("[-]"), vec![Ir::Jez(2), Ir::Decr(1), Ir::Jnez(0)]);
}

#[test]
fn compile_of_nothing_is_the_empty_program() {
    assert_eq!(compile_source(""), Vec::<Ir>::new());
    assert_eq!(compile_source("only a comment"), Vec::<Ir>::new());
}

#[test]
fn compiled_jumps_point_at_each_other() {
    let prog = compile_source("+[[->+<]>[-<+>]<]++[[[]]][]");
    let mut loops = 0;
    for (i, ir) in prog.iter().enumerate() {
        match *ir {
            Ir::Jez(j) => {
                assert!(i < j);
                assert_eq!(prog[j], Ir::Jnez(i));
                loops += 1;
            }
            Ir::Jnez(j) => {
                assert!(j < i);
                assert_eq!(prog[j], Ir::Jez(i));
            }
            _ => {}
        }
    }
    assert_eq!(loops, 7);
}
