use fbl::driver::run_program;
use fbl::exec::Status;

fn test_str(input: &str, expected: &str) {
    match run_program(input, 1_000_000) {
        Ok((status, out)) => {
            assert_eq!(status, Status::Finished, "program did not finish: {}", input);
            assert_eq!(String::from_utf8_lossy(&out), expected, "program: {}", input);
        },
        Err(e) => panic!("program failed to compile: {:?}: {}", e, input),
    }
}

#[test]
fn test_if_stmts() {
    test_str(TRUE_BRANCH_CODE, "Success!\n");
    test_str(FALSE_BRANCH_CODE, "Success!\n");
}

const TRUE_BRANCH_CODE: &str = r#"
if (1) {
  print("Success!");
} else {
  print("Failure!");
}
"#;

const FALSE_BRANCH_CODE: &str = r#"
if (0) {
  print("Failure!");
} else {
  print("Success!");
}
"#;
