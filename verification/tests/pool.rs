use ranking::errors::ThreadPoolErr;
use ranking::pool::worker_shutdown;

#[test]
fn out_of_time_is_a_timeout() {
    assert!(matches!(
        worker_shutdown(3, false, true, None),
        Err(ThreadPoolErr::ShutdownTimeout)
    ));
}

#[test]
fn unjoined_worker_is_named() {
    match worker_shutdown(12, true, false, None) {
        Err(ThreadPoolErr::ThreadJoin(s)) => assert_eq!(s, "Worker 12 failed to join"),
        other => panic!("{:?}", other),
    }
}

#[test]
fn failed_job_is_reported_with_its_error() {
    match worker_shutdown(7, true, true, Some("\"boom\"".to_string())) {
        Err(ThreadPoolErr::ThreadExec(s)) => assert_eq!(
            s,
            "Worker 7 encounter the following error during execution : \"boom\""
        ),
        other => panic!("{:?}", other),
    }
}

#[test]
fn clean_worker_lets_shutdown_go_on() {
    assert!(worker_shutdown(0, true, true, None).is_ok());
}

#[test]
fn join_message_displays_through_the_error() {
    let err = worker_shutdown(5, true, false, None).unwrap_err();
    assert_eq!(err.message(), "Thread join issue : [Worker 5 failed to join]");
}
