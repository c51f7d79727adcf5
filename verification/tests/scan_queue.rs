use savescummer_catalog::scan_queue::{Queue, Take};

fn start(q: &mut Queue<String>) -> (u64, bool, bool, Vec<String>) {
    match q.take() {
        Take::Run(job) => (job.id, job.full, job.user, job.reasons),
        other => panic!("{other:?}"),
    }
}

#[test]
fn a_request_during_a_scan_joins_it() {
    let mut q: Queue<String> = Queue::new();
    let id = q.request(true, false, "startup");
    assert_eq!(start(&mut q).0, id);
    assert!(q.is_running());
    assert!(!q.running_user());
    let joined = q.request(false, true, "user");
    assert_eq!(joined, id);
    assert!(q.running_user());
    assert!(matches!(q.take(), Take::Idle));
    let job = q.finish("done".to_string());
    assert_eq!(job.id, id);
    assert_eq!(job.reasons, vec!["startup".to_string(), "user".to_string()]);
    assert_eq!(q.result(id).map(String::as_str), Some("done"));
    assert!(!q.is_running());
}

#[test]
fn a_full_scan_requested_during_an_install_scan_runs_right_after_it() {
    let mut q: Queue<String> = Queue::new();
    let install = q.request(false, false, "a game started");
    start(&mut q);
    let full = q.request(true, true, "scan games");
    assert_ne!(full, install);
    let again = q.request(false, false, "a game started");
    assert_eq!(again, install, "an install scan is covered by the running one");
    q.finish("install".to_string());
    let (id, is_full, user, reasons) = start(&mut q);
    assert_eq!(id, full);
    assert!(is_full && user);
    assert_eq!(reasons, vec!["scan games".to_string()]);
}

#[test]
fn queued_requests_merge_and_repeat_reasons_once() {
    let mut q: Queue<String> = Queue::new();
    let a = q.request(false, false, "r");
    let b = q.request(true, false, "r");
    assert_eq!(a, b);
    let (_, full, user, reasons) = start(&mut q);
    assert!(full && !user);
    assert_eq!(reasons, vec!["r".to_string()]);
}

#[test]
fn only_recent_results_are_kept() {
    let mut q: Queue<String> = Queue::new();
    let mut first = 0;
    for n in 0..70 {
        let id = q.request(true, false, "periodic");
        if n == 0 {
            first = id;
        }
        start(&mut q);
        q.finish(format!("scan {id}"));
    }
    assert_eq!(q.result(first), None);
    assert_eq!(q.result(70).map(String::as_str), Some("scan 70"));
    assert_eq!(q.result(7).map(String::as_str), Some("scan 7"));
    assert_eq!(q.result(6), None);
}

#[test]
fn a_stopped_queue_starts_nothing() {
    let mut q: Queue<String> = Queue::new();
    assert!(matches!(q.take(), Take::Idle));
    q.request(true, false, "r");
    q.stop();
    assert!(matches!(q.take(), Take::Stopped));
}
