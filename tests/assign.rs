use fbl::driver::run_program;
use fbl::exec::Status;

fn test_str(input: &str, expected: &str) {
    match run_program(input, 1_000_000) {
        Ok((status, out)) => {
            assert_eq!(status, Status::Finished, "program did not finish: {}", input);
            assert_eq!(String::from_utf8_lossy(&out), expected, "program: {}", input);
        },
        Err(e) => panic!("program failed to compile: {:?}: {}", e, input),
    }
}

#[test]
fn test_assign() {
    test_str(&wrap_in_ifelse(&["a = 42;"], "a == 42"), "True!\n");
    test_str(&wrap_in_ifelse(&["a = 42;"], "a == 69"), "False!\n");
    test_str(&wrap_in_ifelse(&["a = 42;", "b = 69;"], "a == 42 && b == 69"), "True!\n");
    test_str(&wrap_in_ifelse(&["a = 42;", "b = 69;"], "a == 42 && b == 42"), "False!\n");
}

fn wrap_in_ifelse(assigns: &[&str], test_expr: &str) -> String {
    let mut out_str = String::new();
    out_str.push_str("if (1) {");
    for assign in assigns {
        out_str.push_str(assign);
    }
    out_str.push_str("if (");
    out_str.push_str(test_expr);
    out_str.push_str(r#") { print("True!"); } else { print("False!"); } } else { print("if/else failure!"); }"#);
    out_str
}
