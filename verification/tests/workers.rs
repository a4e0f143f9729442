use bob::rustc_wrap::meta_ready_line;
use bob::worker::{
    build_cores, check_ready, check_stdenv, request, WorkerEvent, WorkerRun, INIT,
};

fn code(line: &str) -> i32 {
    match WorkerRun::new().read_line(line) {
        WorkerEvent::Done(c) => c,
        _ => panic!("not done: {}", line),
    }
}

#[test]
fn exit_codes_read_back() {
    for c in [0, 1, 127, -1, i32::MAX, i32::MIN] {
        assert_eq!(code(&format!("__DONE__ {}\n", c)), c);
    }
    assert_eq!(code("__DONE__ +7\n"), 7);
    for bad in ["", "x", "1x", "-", "2147483648", "-2147483649", "99999999999999999999"] {
        assert_eq!(code(&format!("__DONE__ {}\n", bad)), -1);
    }
}

#[test]
fn signals_count_once() {
    let mut run = WorkerRun::new();
    assert!(matches!(run.read_line("stray\n"), WorkerEvent::Other));
    let line = meta_ready_line("/t/rmeta");
    assert!(matches!(run.read_line(&line), WorkerEvent::MetaReady(d) if d == "/t/rmeta"));
    assert!(run.signalled);
    assert!(matches!(run.read_line(&line), WorkerEvent::Other));
    assert!(matches!(run.read_line("__DONE__ 0\n"), WorkerEvent::Done(0)));
    assert!(matches!(run.read_line(""), WorkerEvent::Closed));
}

#[test]
fn worker_start() {
    assert!(check_ready("__READY__\n").is_ok());
    assert_eq!(
        check_ready("oops\n").unwrap_err(),
        "worker didn't signal ready, got: oops\n"
    );
    assert!(check_stdenv("/s", true).is_ok());
    assert_eq!(check_stdenv("/s", false).unwrap_err(), "stdenv missing at /s");
    assert_eq!(build_cores(Some("3"), 8), "3");
    assert_eq!(build_cores(None, 8), "8");
    assert_eq!(request("/a b", "/o", "/e"), "/a b\n/o\n/e\n");
    assert!(INIT.contains("echo \"__DONE__ $?\"\n"));
}
