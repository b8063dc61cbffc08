use fbl::ast::{AstNode, AstValue};
use fbl::driver::{run_program, RunError};
use fbl::exec::{execute, Status};
use fbl::ir::{Inst, Terminator};
use fbl::lower::{compile_program, LowerError};
use fbl::parser::{parse_string, Expected, ParseError};
use fbl::tables::{compile_data, declare_all_variables};

fn output_of(input: &str) -> String {
    match run_program(input, 1_000_000) {
        Ok((status, out)) => {
            assert_eq!(status, Status::Finished, "program did not finish: {}", input);
            String::from_utf8(out).unwrap()
        },
        Err(e) => panic!("program failed to compile: {:?}: {}", e, input),
    }
}

#[test]
fn numbers_print_right_aligned() {
    assert_eq!(output_of("print(7);"), "  7\n");
    assert_eq!(output_of("print(42);"), " 42\n");
    assert_eq!(output_of("print(305);"), "305\n");
    assert_eq!(output_of("print(90);"), " 90\n");
}

#[test]
fn numbers_wrap_modulo_1000() {
    assert_eq!(output_of("print(1234);"), "234\n");
    assert_eq!(output_of("print(5000);"), "  0\n");
    assert_eq!(output_of("print(2050);"), " 50\n");
    // Integer literals are truncated to 32 bits before printing.
    assert_eq!(output_of("print(4294967303);"), "  7\n");
}

#[test]
fn strings_print_with_one_newline() {
    assert_eq!(output_of(r#"print("a b");"#), "a b\n");
    assert_eq!(output_of(r#"print("été");"#), "été\n");
    assert_eq!(output_of(r#"print("");"#), "\n");
}

#[test]
fn if_runs_exactly_one_branch() {
    assert_eq!(output_of(r#"if (2) { print("A"); } else { print("B"); }"#), "A\n");
    assert_eq!(output_of(r#"if (0) { print("A"); } else { print("B"); }"#), "B\n");
    assert_eq!(output_of(r#"if (0) { } else { }"#), "");
}

#[test]
fn for_runs_from_first_to_last() {
    assert_eq!(output_of("for (i; 5, 3) { print(i); }"), "");
    assert_eq!(output_of("for (i; 3, 3) { print(i); }"), "  3\n");
    assert_eq!(output_of("for (i; 8, 11) { print(i); }"), "  8\n  9\n 10\n 11\n");
}

#[test]
fn operators_on_raw_values() {
    let body = |stmts: &str| format!("if (1) {{ {} }} else {{ }}", stmts);
    assert_eq!(output_of(&body("a = 6 && 3; print(a);")), "  2\n");
    assert_eq!(output_of(&body("a = 2 && 1; print(a);")), "  0\n");
    assert_eq!(output_of(&body("a = 5 == 5; print(a);")), "  1\n");
    assert_eq!(output_of(&body("a = 5 == 6; print(a);")), "  0\n");
    assert_eq!(output_of(&body("a = 17 % 5; print(a);")), "  2\n");
    assert_eq!(output_of(&body("a = 7 % 3 == 1 && 1; print(a);")), "  1\n");
}

#[test]
fn comments_and_whitespace_are_skipped() {
    let src = "// leading comment\n  for (i; 1, 2) { // loop\n print(i); }\n// trailing";
    assert_eq!(output_of(src), "  1\n  2\n");
}

#[test]
fn remainder_by_zero_traps() {
    let (status, out) = run_program(r#"if (1) { print("x"); a = 5 % 0; print("y"); } else { }"#, 1000).unwrap();
    assert_eq!(status, Status::Trapped);
    assert_eq!(String::from_utf8(out).unwrap(), "x\n");
}

#[test]
fn fuel_bounds_the_run() {
    let (status, out) = run_program("for (i; 1, 100) { print(i); }", 4).unwrap();
    assert_eq!(status, Status::OutOfFuel);
    assert_eq!(String::from_utf8(out).unwrap(), "  1\n");
}

#[test]
fn identical_literals_share_one_symbol() {
    let program = parse_string(r#"if (1) { print("x"); print("y"); } else { print("x"); }"#).unwrap();
    let mut data: Vec<Vec<u8>> = Vec::new();
    compile_data(&mut data, &program);
    assert_eq!(data, vec![b"x\0".to_vec(), b"y\0".to_vec()]);
}

#[test]
fn slots_in_first_seen_order() {
    let program = parse_string("for (i; 1, 2) { b = 1; a = 2; b = 3; if (b) { c = 1; } else { a = 1; } }").unwrap();
    let mut vars: Vec<String> = Vec::new();
    declare_all_variables(&mut vars, &program);
    assert_eq!(vars, vec!["i".to_string(), "b".to_string(), "a".to_string(), "c".to_string()]);
}

#[test]
fn lowering_errors() {
    let unbound = parse_string("print(x);").unwrap();
    assert_eq!(compile_program(&unbound).err(), Some(LowerError::UnboundIdentifier));
    let read_unbound = parse_string("a = b;").unwrap();
    assert_eq!(compile_program(&read_unbound).err(), Some(LowerError::UnboundIdentifier));
    let unknown_call = parse_string("foo(1, 2);").unwrap();
    assert_eq!(compile_program(&unknown_call).err(), Some(LowerError::UnsupportedConstruct));
    let two_args = parse_string("print(1, 2);").unwrap();
    assert_eq!(compile_program(&two_args).err(), Some(LowerError::UnsupportedConstruct));
    let text_value = parse_string(r#"a = "s";"#).unwrap();
    assert_eq!(compile_program(&text_value).err(), Some(LowerError::UnsupportedConstruct));
    let print_expr = parse_string("print(1 % 2);").unwrap();
    assert_eq!(compile_program(&print_expr).err(), Some(LowerError::UnsupportedConstruct));
    assert_eq!(
        run_program("print(x);", 10).err(),
        Some(RunError::Lower(LowerError::UnboundIdentifier))
    );
}

#[test]
fn parse_errors() {
    assert_eq!(parse_string("print(1)").err(), Some(ParseError { offset: 8, expected: Expected::Token }));
    assert_eq!(parse_string("print(1); print(2);").err(), Some(ParseError { offset: 10, expected: Expected::EndOfInput }));
    assert!(parse_string("").is_err());
    assert!(parse_string("for = 1;").is_err());
    assert!(parse_string("if = 1;").is_err());
    assert!(parse_string("for (i; 1, 99999999999999999999) { }").is_err());
    assert!(matches!(run_program("if (1) { }", 10), Err(RunError::Parse(_))));
}

#[test]
fn identifiers_may_start_with_a_keyword() {
    assert_eq!(
        parse_string("iffy = 1;").unwrap(),
        AstNode::Assign("iffy".to_string(), Box::new(AstNode::Literal(AstValue::Int(1))))
    );
    assert_eq!(output_of("for (format; 1, 2) { elsewhere = format; print(elsewhere); }"), "  1\n  2\n");
}

#[test]
fn parse_builds_the_tree() {
    let t = parse_string("x = 1 && 2 == 3 % 4;").unwrap();
    let lit = |v: i64| AstNode::Literal(AstValue::Int(v));
    let call = |op: &str, l: AstNode, r: AstNode| AstNode::Call(op.to_string(), vec![l, r]);
    let expected = AstNode::Assign(
        "x".to_string(),
        Box::new(call("&&", lit(1), call("==", lit(2), call("%", lit(3), lit(4))))),
    );
    assert_eq!(t, expected);
    let s = parse_string(r#"print("hi");"#).unwrap();
    assert_eq!(
        s,
        AstNode::Call("print".to_string(), vec![AstNode::Literal(AstValue::Text(b"hi\0".to_vec()))])
    );
    let left = parse_string("a = 1 % 2 % 3;").unwrap();
    assert_eq!(
        left,
        AstNode::Assign("a".to_string(), Box::new(call("%", call("%", lit(1), lit(2)), lit(3))))
    );
}

#[test]
fn print_lowers_to_digit_instructions() {
    let program = parse_string("print(3);").unwrap();
    let f = compile_program(&program).unwrap();
    assert_eq!(f.blocks.len(), 1);
    let insts = &f.blocks[0].insts;
    assert_eq!(insts.len(), 20);
    assert_eq!(insts[0], Inst::Iconst { dst: 0, imm: 3 });
    assert_eq!(insts[3], Inst::UdivImm { dst: 3, arg: 0, imm: 100 });
    assert_eq!(insts[19], Inst::Putchar { arg: 2 });
    assert_eq!(f.blocks[0].term, Terminator::Return);
    let (status, out) = execute(&f, 10);
    assert_eq!(status, Status::Finished);
    assert_eq!(out, b"  3\n".to_vec());
}

#[test]
fn for_lowers_to_compare_body_exit() {
    let program = parse_string("for (i; 1, 3) { }").unwrap();
    let f = compile_program(&program).unwrap();
    assert_eq!(f.blocks.len(), 4);
    assert_eq!(f.blocks[0].term, Terminator::Jump { target: 1 });
    assert_eq!(f.blocks[1].insts[1], Inst::IcmpSleImm { dst: 2, arg: 1, imm: 3 });
    assert_eq!(f.blocks[1].term, Terminator::Brz { cond: 2, if_zero: 3, if_nonzero: 2 });
    assert_eq!(f.blocks[2].term, Terminator::Jump { target: 1 });
    assert!(f.blocks.iter().all(|b| b.sealed));
}

#[test]
fn loop_bounds_must_fit_32_bits() {
    let wide = parse_string("for (i; 0, 3000000000) { print(i); }").unwrap();
    assert_eq!(compile_program(&wide).err(), Some(LowerError::UnsupportedConstruct));
    let top = parse_string("for (i; 0, 2147483647) { }").unwrap();
    assert_eq!(compile_program(&top).err(), Some(LowerError::UnsupportedConstruct));
    let ok = parse_string("for (i; 2147483640, 2147483646) { }").unwrap();
    assert!(compile_program(&ok).is_ok());
}

#[test]
fn statements_are_not_operands() {
    let inner = parse_string("if (1) { } else { }").unwrap();
    let call = AstNode::Call("&&".to_string(), vec![inner, AstNode::Literal(AstValue::Int(1))]);
    assert_eq!(compile_program(&call).err(), Some(LowerError::UnsupportedConstruct));
}

#[test]
fn nested_statements_run() {
    let src = "for (i; 1, 3) { if (i == 2) { for (j; 7, 8) { print(j); } } else { print(i); } }";
    assert_eq!(output_of(src), "  1\n  7\n  8\n  3\n");
}
