use lllc::ast::{Expression, Op};
use lllc::compiler::{fits_label_limit, CompileError, Compiler, Tok};

fn leaf(v: u32) -> Expression {
    Expression { op: Op::Num(v), exprs: vec![] }
}

fn node(op: Op, exprs: Vec<Expression>) -> Expression {
    Expression { op, exprs }
}

fn program(exprs: Vec<Expression>) -> Expression {
    Expression { op: Op::Start, exprs }
}

fn compile(prog: Expression) -> Result<String, CompileError> {
    let mut c = Compiler::new(prog);
    c.compile()
}

#[test]
fn add_two_literals() {
    let prog = program(vec![node(Op::Add, vec![leaf(2), leaf(3)])]);
    assert_eq!(compile(prog).unwrap(), "6003600201");
}

#[test]
fn multiary_emits_one_opcode_per_reduction() {
    let prog = program(vec![node(Op::Add, vec![leaf(1), leaf(2), leaf(3)])]);
    assert_eq!(compile(prog).unwrap(), "6003600260010101");
}

#[test]
fn multiary_opcode_table() {
    let cases = vec![
        (Op::Add, "01"),
        (Op::Mul, "02"),
        (Op::Sub, "03"),
        (Op::Div, "04"),
        (Op::Mod, "06"),
        (Op::And, "16"),
        (Op::Or, "17"),
        (Op::XOr, "18"),
    ];
    for (op, code) in cases {
        let prog = program(vec![node(op, vec![leaf(1), leaf(2)])]);
        let expected = format!("60026001{}", code);
        assert_eq!(compile(prog).unwrap(), expected);
    }
}

#[test]
fn single_child_passes_through() {
    let prog = program(vec![node(Op::Add, vec![leaf(5)])]);
    assert_eq!(compile(prog).unwrap(), "6005");
}

#[test]
fn no_children_emit_nothing() {
    let prog = program(vec![node(Op::Mul, vec![])]);
    assert_eq!(compile(prog).unwrap(), "");
}

#[test]
fn comparison_operand_order() {
    let prog = program(vec![node(Op::Lt, vec![leaf(1), leaf(2)])]);
    assert_eq!(compile(prog).unwrap(), "6002600110");
    let prog = program(vec![node(Op::Gt, vec![leaf(1), leaf(2)])]);
    assert_eq!(compile(prog).unwrap(), "6002600111");
    let prog = program(vec![node(Op::Eq, vec![leaf(1), leaf(2)])]);
    assert_eq!(compile(prog).unwrap(), "6002600114");
}

#[test]
fn not_equal_is_one_two_byte_unit() {
    let prog = program(vec![node(Op::NotEq, vec![leaf(1), leaf(2)])]);
    assert_eq!(compile(prog).unwrap(), "600260011415");
}

#[test]
fn or_equal_recompiles_both_operands() {
    let prog = program(vec![node(Op::LtOE, vec![leaf(1), leaf(2)])]);
    let eq_code = "6002600114";
    let lt_code = "6002600110";
    let out = compile(prog).unwrap();
    assert_eq!(out, format!("{}{}17", eq_code, lt_code));
    assert_eq!(out.len(), eq_code.len() + lt_code.len() + 2);
    let prog = program(vec![node(Op::GtOE, vec![leaf(1), leaf(2)])]);
    assert_eq!(compile(prog).unwrap(), "60026001146002600111" .to_owned() + "17");
}

#[test]
fn unary_not() {
    let prog = program(vec![node(Op::Not, vec![leaf(1)])]);
    assert_eq!(compile(prog).unwrap(), "600119");
}

#[test]
fn if_resolves_jumps_to_jumpdests() {
    let prog = program(vec![node(Op::If, vec![leaf(1), leaf(2), leaf(3)])]);
    // cond, else and the jump glue occupy indices 0..=9; the first JUMPDEST
    // stands at index 10 and the join JUMPDEST at index 13.
    assert_eq!(compile(prog).unwrap(), "6001600a576003600d565b60025b");
}

#[test]
fn if_offsets_follow_the_branch_lengths() {
    // A longer alternative moves both JUMPDEST positions; the resolved
    // offsets follow them.
    let prog = program(vec![node(Op::If, vec![leaf(1), leaf(2), leaf(0x123456)])]);
    assert_eq!(compile(prog).unwrap(), "6001600c5762123456600f565b60025b");
}

#[test]
fn when_negates_its_condition() {
    let prog = program(vec![node(Op::When, vec![leaf(1), leaf(2)])]);
    assert_eq!(compile(prog).unwrap(), "60011560085760025b");
}

#[test]
fn unless_skips_on_truth() {
    let prog = program(vec![node(Op::Unless, vec![leaf(1), leaf(2)])]);
    assert_eq!(compile(prog).unwrap(), "600160075760025b");
}

#[test]
fn end_only_program_is_empty() {
    let prog = program(vec![Expression::end_program()]);
    assert_eq!(compile(prog).unwrap(), "");
}

#[test]
fn empty_program_is_empty() {
    let prog = Expression::new_program();
    assert_eq!(compile(prog).unwrap(), "");
}

#[test]
fn literal_encodings() {
    assert_eq!(compile(program(vec![leaf(0)])).unwrap(), "6000");
    assert_eq!(compile(program(vec![leaf(0xaa)])).unwrap(), "60aa");
    // Odd digit count: `100` chunks as `10` and a padded `00`.
    assert_eq!(compile(program(vec![leaf(0x100)])).unwrap(), "611000");
    assert_eq!(compile(program(vec![leaf(0xffffffff)])).unwrap(), "63ffffffff");
    // An even digit count encodes big-endian.
    assert_eq!(compile(program(vec![leaf(0xabcd)])).unwrap(), "61abcd");
}

#[test]
fn odd_digit_literal_pads_the_last_byte() {
    // Three hex digits chunk from the left: `12`, and a lone `3` padded to
    // `03`, so the value 0x123 encodes as operands `1203`.
    assert_eq!(compile(program(vec![leaf(0x123)])).unwrap(), "611203");
}

#[test]
fn if_with_two_children_is_wrong_arity() {
    let prog = program(vec![node(Op::If, vec![leaf(1), leaf(2)])]);
    assert_eq!(compile(prog), Err(CompileError::WrongArity));
}

#[test]
fn arity_errors() {
    let prog = program(vec![node(Op::When, vec![leaf(1)])]);
    assert_eq!(compile(prog), Err(CompileError::WrongArity));
    let prog = program(vec![node(Op::Unless, vec![leaf(1), leaf(2), leaf(3)])]);
    assert_eq!(compile(prog), Err(CompileError::WrongArity));
    let prog = program(vec![node(Op::Lt, vec![leaf(1)])]);
    assert_eq!(compile(prog), Err(CompileError::WrongArity));
    let prog = program(vec![node(Op::LtOE, vec![leaf(1), leaf(2), leaf(3)])]);
    assert_eq!(compile(prog), Err(CompileError::WrongArity));
    let prog = program(vec![node(Op::Not, vec![leaf(1), leaf(2)])]);
    assert_eq!(compile(prog), Err(CompileError::WrongArity));
}

#[test]
fn start_cannot_be_compiled_as_an_expression() {
    let prog = program(vec![Expression::new_program()]);
    assert_eq!(compile(prog), Err(CompileError::UnsupportedOperator));
}

#[test]
fn error_aborts_the_whole_compile() {
    // A sound first expression does not survive a failing second one.
    let prog = program(vec![leaf(1), node(Op::If, vec![leaf(1), leaf(2)])]);
    assert_eq!(compile(prog), Err(CompileError::WrongArity));
}

#[test]
fn small_programs_fit_the_label_limit() {
    let prog = program(vec![node(Op::If, vec![leaf(1), leaf(2), leaf(3)])]);
    assert!(fits_label_limit(&prog));
}

#[test]
fn unresolved_jump_is_reported() {
    let toks = vec![Tok::Jump(5)];
    assert_eq!(Compiler::resolve(&toks), Err(CompileError::NoDestinationFound));
}

#[test]
fn resolution_pads_wide_offsets() {
    let mut toks = vec![Tok::Jump(1)];
    for _ in 0..300 {
        toks.push(Tok::Byte(0));
    }
    toks.push(Tok::Dest(1));
    let expected = format!("012d{}5b", "00".repeat(300));
    assert_eq!(Compiler::resolve(&toks).unwrap(), expected);
}

#[test]
fn resolution_takes_the_first_matching_label() {
    let toks = vec![Tok::Jump(7), Tok::Dest(7), Tok::Byte(0x01), Tok::Dest(7)];
    assert_eq!(Compiler::resolve(&toks).unwrap(), "015b015b");
}
