use stream_monitor::actor::apply_inspection;
use stream_monitor::cycle::Cycle;
use stream_monitor::status::StreamStatus;

#[test]
fn new_registry_is_empty() {
    let c = Cycle::new();
    assert_eq!(c.len(), 0);
    assert_eq!(c.status_of("a"), None);
}

#[test]
fn insert_appends_and_readd_overwrites_in_place() {
    let mut c = Cycle::new();
    c.insert("a", StreamStatus::Idle);
    c.insert("b", StreamStatus::Downloading);
    assert_eq!(c.len(), 2);
    assert_eq!(c.status_of("a"), Some(StreamStatus::Idle));
    assert_eq!(c.status_of("b"), Some(StreamStatus::Downloading));
    c.insert("a", StreamStatus::Uploading);
    assert_eq!(c.len(), 2);
    assert_eq!(c.status_of("a"), Some(StreamStatus::Uploading));
}

#[test]
fn remove_returns_prior_status_once() {
    let mut c = Cycle::new();
    c.insert("a", StreamStatus::Pending);
    c.insert("b", StreamStatus::Idle);
    assert_eq!(c.remove("a"), Some(StreamStatus::Pending));
    assert_eq!(c.len(), 1);
    assert_eq!(c.status_of("a"), None);
    assert_eq!(c.remove("a"), None);
    assert_eq!(c.len(), 1);
}

#[test]
fn round_robin_visits_each_url_exactly_once() {
    // Three idle URLs; the inspector always fails, so no status ever changes:
    // three consecutive polls must visit a permutation of all three URLs.
    let mut c = Cycle::new();
    c.insert("a", StreamStatus::Idle);
    c.insert("b", StreamStatus::Idle);
    c.insert("c", StreamStatus::Idle);
    let mut cursor: usize = 0;
    let mut seen: Vec<String> = Vec::new();
    for _ in 0..3 {
        let (url, status) = c.get(&mut cursor);
        assert_eq!(status, StreamStatus::Idle);
        apply_inspection(&mut c, &url, status, false);
        seen.push(url);
    }
    seen.sort();
    assert_eq!(
        seen,
        vec!["a".to_string(), "b".to_string(), "c".to_string()]
    );
}

#[test]
fn removal_may_shift_order_but_keeps_the_rest() {
    let mut c = Cycle::new();
    c.insert("a", StreamStatus::Idle);
    c.insert("b", StreamStatus::Idle);
    c.insert("c", StreamStatus::Idle);
    assert_eq!(c.remove("a"), Some(StreamStatus::Idle));
    assert_eq!(c.len(), 2);
    let mut cursor: usize = 0;
    let mut seen: Vec<String> = Vec::new();
    for _ in 0..2 {
        let (url, _) = c.get(&mut cursor);
        seen.push(url);
    }
    seen.sort();
    assert_eq!(seen, vec!["b".to_string(), "c".to_string()]);
}

#[test]
fn successful_poll_while_idle_writes_back_downloading() {
    let mut c = Cycle::new();
    c.insert("a", StreamStatus::Idle);
    apply_inspection(&mut c, "a", StreamStatus::Idle, true);
    assert_eq!(c.status_of("a"), Some(StreamStatus::Downloading));
    assert_eq!(c.len(), 1);
}

#[test]
fn write_back_for_a_removed_url_is_suppressed() {
    // The URL was read at Idle, then removed while the inspection was in
    // flight: the late write-back must not re-insert a stale entry.
    let mut c = Cycle::new();
    c.insert("a", StreamStatus::Idle);
    c.insert("b", StreamStatus::Idle);
    c.remove("a");
    apply_inspection(&mut c, "a", StreamStatus::Idle, true);
    assert_eq!(c.status_of("a"), None);
    assert_eq!(c.len(), 1);
}
