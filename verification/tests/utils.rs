use nftrout_indexer::utils::{first_backoff, next_backoff};

#[test]
fn backoff_doubles_up_to_the_cap() {
    let mut wait = first_backoff();
    let mut waits = vec![wait];
    for _ in 0..8 {
        wait = next_backoff(wait);
        waits.push(wait);
    }
    assert_eq!(waits, vec![1, 2, 4, 8, 16, 32, 60, 60, 60]);
    assert_eq!(next_backoff(0), 1);
    assert_eq!(next_backoff(29), 58);
    assert_eq!(next_backoff(30), 60);
    assert_eq!(next_backoff(u64::MAX), 60);
}
