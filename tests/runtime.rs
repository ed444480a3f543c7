use crossbeam_utils::sync::Parker;
use crossbeam_utils::thread;
use dbsp::runtime::Runtime;
use std::time::Duration;

fn test_runtime() {
    let runtime = Runtime::new(4);
    thread::scope(|s| {
        for worker_index in 0..runtime.num_workers() {
            let runtime = runtime.clone();
            s.spawn(move |_| {
                let mut data = vec![];
                for _ in 0..100 {
                    data.push(runtime.sequence_next(worker_index));
                }
                assert_eq!(data, (0..100).collect::<Vec<usize>>());
            });
        }
    })
    .unwrap();
}

#[test]
fn test_runtime_static() {
    test_runtime();
}

#[test]
fn test_runtime_dynamic() {
    test_runtime();
}

// Workers that iterate forever stop once killed.
fn test_kill() {
    let runtime = Runtime::new(16);
    thread::scope(|s| {
        for worker_index in 0..runtime.num_workers() {
            let runtime = runtime.clone();
            s.spawn(move |_| {
                let mut n: usize = 0;
                loop {
                    if runtime.kill_in_progress(worker_index) {
                        return n;
                    }
                    n = runtime.sequence_next(worker_index) + 1;
                }
            });
        }
        Parker::new().park_timeout(Duration::from_millis(100));
        runtime.kill();
    })
    .unwrap();
    for worker_index in 0..16 {
        assert!(runtime.kill_in_progress(worker_index));
    }
}

#[test]
fn test_kill_static() {
    test_kill();
}

#[test]
fn test_kill_dynamic() {
    test_kill();
}

#[test]
fn sequences_are_per_worker() {
    let runtime = Runtime::new(2);
    assert_eq!(runtime.sequence_next(0), 0);
    assert_eq!(runtime.sequence_next(0), 1);
    assert_eq!(runtime.sequence_next(1), 0);
    assert_eq!(runtime.clone().sequence_next(0), 2);
    assert!(!runtime.kill_in_progress(1));
    assert_eq!(runtime.num_workers(), 2);
}
