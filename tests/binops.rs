use fbl::driver::run_program;
use fbl::exec::Status;

fn test_str(input: &str, expected: &str) {
    match run_program(input, 1_000_000) {
        Ok((status, out)) => {
            assert_eq!(status, Status::Finished, "program did not finish: {}", input);
            assert_eq!(String::from_utf8_lossy(&out), expected, "program: {}", input);
        },
        Err(e) => panic!("program failed to compile: {:?}: {}", e, input),
    }
}

#[test]
fn test_binops_eq() {
    test_str(&wrap_in_ifelse("1 == 1"), "True!\n");
    test_str(&wrap_in_ifelse("1 == 0"), "False!\n");
    test_str(&wrap_in_ifelse("0 == 0"), "True!\n");
    test_str(&wrap_in_ifelse("1234 == 1234"), "True!\n");
}

#[test]
fn test_binops_and() {
    test_str(&wrap_in_ifelse("1 && 1"), "True!\n");
    test_str(&wrap_in_ifelse("1 && 0"), "False!\n");
    test_str(&wrap_in_ifelse("0 && 0"), "False!\n");
    // `&&` is a bitwise and of the raw operands: 1 & 2 and 1 & 32 are zero.
    test_str(&wrap_in_ifelse("1 && 2"), "False!\n");
    test_str(&wrap_in_ifelse("1 && 32"), "False!\n");
    test_str(&wrap_in_ifelse("1234 && 1234"), "True!\n");
    test_str(&wrap_in_ifelse("1234 && 4321"), "True!\n");
}

#[test]
fn test_binops_mod() {
    test_str(&wrap_in_ifelse("10 % 3 == 1"), "True!\n");
    test_str(&wrap_in_ifelse("555 % 3 == 0"), "True!\n");
    test_str(&wrap_in_ifelse("3 % 555 == 3"), "True!\n");
}

#[test]
fn test_binops_combo() {
    test_str(&wrap_in_ifelse("1 == 1 == 1"), "True!\n");
    test_str(&wrap_in_ifelse("1 == 0 == 1"), "False!\n");
    test_str(&wrap_in_ifelse("1 == 0 == 0"), "True!\n");

    test_str(&wrap_in_ifelse("1 && 1 && 1"), "True!\n");
    test_str(&wrap_in_ifelse("1 && 0 && 1"), "False!\n");
    test_str(&wrap_in_ifelse("1 && 1 && 0"), "False!\n");

    test_str(&wrap_in_ifelse("11 % 8 % 3 == 0"), "True!\n");
    test_str(&wrap_in_ifelse("11 % (8 % 3) == 1"), "True!\n");

    test_str(&wrap_in_ifelse("15 % 3 == 0 && 15 % 5 == 0"), "True!\n");
}

fn wrap_in_ifelse(expr: &str) -> String {
    let mut out_str = String::new();
    out_str.push_str("if (");
    out_str.push_str(expr);
    out_str.push_str(r#") { print("True!"); } else { print("False!"); }"#);
    out_str
}
