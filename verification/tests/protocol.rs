use alco::error::Error;
use alco::protocol::{cachegrind_args, classify_invocation, old_file_path, output_file_path, RunMode};

#[test]
fn no_marker_means_driver() {
    assert!(matches!(
        classify_invocation(&vec![]),
        Ok(RunMode::Driver)
    ));
    assert!(matches!(
        classify_invocation(&vec!["--bench".to_owned()]),
        Ok(RunMode::Driver)
    ));
}

#[test]
fn the_marker_selects_the_child() {
    let args = vec![
        "--internal-run".to_owned(),
        "3".to_owned(),
        "a\u{a7}usize\u{a7}1".to_owned(),
        "b\u{a7}usize\u{a7}2".to_owned(),
    ];
    match classify_invocation(&args).unwrap() {
        RunMode::Child { index, tokens } => {
            assert_eq!(index, 3);
            assert_eq!(tokens, vec!["a\u{a7}usize\u{a7}1", "b\u{a7}usize\u{a7}2"]);
        },
        RunMode::Driver => panic!("expected the child role"),
    }
}

#[test]
fn zero_tokens_still_select_the_child() {
    match classify_invocation(&vec!["--internal-run".to_owned(), "0".to_owned()]).unwrap() {
        RunMode::Child { index, tokens } => {
            assert_eq!(index, 0);
            assert!(tokens.is_empty());
        },
        RunMode::Driver => panic!("expected the child role"),
    }
}

#[test]
fn a_bad_index_is_an_integer_error() {
    assert!(matches!(
        classify_invocation(&vec!["--internal-run".to_owned()]),
        Err(Error::ParseInt)
    ));
    assert!(matches!(
        classify_invocation(&vec!["--internal-run".to_owned(), "x".to_owned()]),
        Err(Error::ParseInt)
    ));
}

#[test]
fn output_paths_follow_the_benchmark_name() {
    assert_eq!(output_file_path("fib"), "target/alco/cachegrind.out.fib");
    assert_eq!(old_file_path("fib"), "target/alco/cachegrind.out.fib.old");
}

#[test]
fn simulator_arguments_are_fixed() {
    let tokens = vec!["n\u{a7}usize\u{a7}8".to_owned()];
    let args = cachegrind_args("target/alco/cachegrind.out.fib", "./bench", 2, &tokens);
    assert_eq!(
        args,
        vec![
            "--tool=cachegrind".to_owned(),
            "--I1=32768,8,64".to_owned(),
            "--D1=32768,8,64".to_owned(),
            "--LL=8388608,16,64".to_owned(),
            "--cachegrind-out-file=target/alco/cachegrind.out.fib".to_owned(),
            "./bench".to_owned(),
            "--internal-run".to_owned(),
            "2".to_owned(),
            "n\u{a7}usize\u{a7}8".to_owned(),
        ]
    );
}
