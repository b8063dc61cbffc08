use fbl::driver::run_program;
use fbl::exec::Status;

fn test_str(input: &str, expected: &str) {
    match run_program(input, 1_000_000) {
        Ok((status, out)) => {
            assert_eq!(status, Status::Finished, "program did not finish: {}", input);
            assert_eq!(String::from_utf8_lossy(&out), expected, "program: {}", input);
        },
        Err(e) => panic!("program failed to compile: {:?}: {}", e, input),
    }
}

#[test]
fn test_print_simple_numbers() {
    test_str(r#"print(0);"#, "  0\n");
    test_str(r#"print(1);"#, "  1\n");
    test_str(r#"print(10);"#, " 10\n");
    test_str(r#"print(100);"#, "100\n");
    test_str(r#"print(555);"#, "555\n");
    test_str(r#"print(999);"#, "999\n");

    // Values past 999 wrap around modulo 1000.
    test_str(r#"print(1000);"#, "  0\n");
    test_str(r#"print(1001);"#, "  1\n");
    test_str(r#"print(10001);"#, "  1\n");
    test_str(r#"print(99999);"#, "999\n");
}

#[test]
fn test_print_strings() {
    test_str(r#"print("Hello World!");"#, "Hello World!\n");
    test_str(r#"print("");"#, "\n");
}
