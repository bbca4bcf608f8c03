use sooth::runner::RunOutcome;

#[test]
fn status_labels_keep_the_runner_prefix() {
    let base = RunOutcome {
        exit_code: Some(2),
        signal: None,
        success: false,
        duration: 0,
    };
    assert_eq!(base.status_label(), "runner exit=2");
    let signaled = RunOutcome {
        exit_code: None,
        signal: Some(15),
        ..base.clone()
    };
    assert_eq!(signaled.status_label(), "runner signal 15");
    let unknown = RunOutcome {
        exit_code: None,
        signal: None,
        ..base
    };
    assert_eq!(unknown.status_label(), "runner killed by signal");
}

#[test]
fn a_negative_exit_code_keeps_its_sign() {
    let outcome = RunOutcome {
        exit_code: Some(-3),
        signal: None,
        success: false,
        duration: 0,
    };
    assert_eq!(outcome.status_label(), "runner exit=-3");
}
