use shrubbery::Status;

#[test]
fn status_defaults_to_running() {
    assert_eq!(Status::default(), Status::Running);
}

#[test]
fn negation_swaps_the_terminal_statuses() {
    assert_eq!(!Status::Success, Status::Failure);
    assert_eq!(!Status::Failure, Status::Success);
    assert_eq!(!Status::Running, Status::Running);
}

#[test]
fn negation_twice_is_the_identity() {
    for status in [Status::Success, Status::Failure, Status::Running] {
        assert_eq!(!!status, status);
    }
}

#[test]
fn running_is_demoted_to_failure() {
    assert_eq!(Status::Running.into_failure_if_running(), Status::Failure);
    assert_eq!(Status::Failure.into_failure_if_running(), Status::Failure);
    assert_eq!(Status::Success.into_failure_if_running(), Status::Success);
}

#[test]
fn status_predicates() {
    assert!(Status::Success.is_terminal());
    assert!(Status::Failure.is_terminal());
    assert!(!Status::Running.is_terminal());

    assert!(Status::Running.is_running());
    assert!(!Status::Success.is_running());
    assert!(!Status::Failure.is_running());

    assert!(Status::Success.is_success());
    assert!(!Status::Failure.is_success());
    assert!(!Status::Running.is_success());

    assert!(Status::Failure.is_failure());
    assert!(!Status::Success.is_failure());
    assert!(!Status::Running.is_failure());
}

#[test]
fn status_from_bool() {
    assert_eq!(Status::from(true), Status::Success);
    assert_eq!(Status::from(false), Status::Failure);
    let converted: Status = true.into();
    assert_eq!(converted, Status::Success);
}
