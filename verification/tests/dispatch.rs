use pi_dispatch::queue::JobQueue;
use pi_dispatch::range::generate_interval;

#[test]
fn ranges_stay_within_bounds() {
    let mut i: usize = 0;
    while i < 200 {
        let r = generate_interval();
        assert!(10 <= r.low && r.low <= r.high && r.high <= 100);
        i += 1;
    }
}

#[test]
fn queue_serves_newest_first() {
    let mut q: JobQueue<i32> = JobQueue::new();
    assert_eq!(q.len(), 0);
    q.submit(1);
    q.submit(2);
    q.submit(3);
    assert_eq!(q.len(), 3);
    assert_eq!(q.claim(), Some(3));
    q.submit(4);
    assert_eq!(q.claim(), Some(4));
    assert_eq!(q.claim(), Some(2));
    assert_eq!(q.claim(), Some(1));
    assert_eq!(q.claim(), None);
    assert_eq!(q.len(), 0);
}
