use stream_monitor::actor::{DownloadActor, StreamerSource};
use stream_monitor::status::StreamStatus;

#[test]
fn unresolved_url_is_a_no_op() {
    let mut a = DownloadActor::new();
    let spawn = a.add_streamer(None, "https://nowhere.example/live");
    assert_eq!(spawn, None);
    assert_eq!(a.platform_count(), 0);
    let cancel = a.remove_streamer(None, "https://nowhere.example/live");
    assert_eq!(cancel, None);
    assert_eq!(a.platform_count(), 0);
}

#[test]
fn first_url_spawns_exactly_one_task_per_platform() {
    let mut a = DownloadActor::new();
    let s1 = a.add_streamer(Some(1), "a");
    assert_eq!(s1, Some(0));
    assert_eq!(a.platform_count(), 1);
    assert_eq!(a.task_of(1), Some(0));
    let s2 = a.add_streamer(Some(1), "b");
    assert_eq!(s2, None);
    assert_eq!(a.platform_count(), 1);
    assert_eq!(a.group_size(1), Some(2));
    let s3 = a.add_streamer(Some(2), "c");
    assert_eq!(s3, Some(1));
    assert_eq!(a.platform_count(), 2);
    assert_eq!(a.group_size(2), Some(1));
}

#[test]
fn removing_the_last_url_cancels_the_task_exactly_once() {
    let mut a = DownloadActor::new();
    a.add_streamer(Some(1), "a");
    let c0 = a.remove_streamer(Some(1), "a");
    assert_eq!(c0, Some(0));
    assert_eq!(a.platform_count(), 0);
    let c1 = a.remove_streamer(Some(1), "a");
    assert_eq!(c1, None);
}

#[test]
fn removing_an_untracked_url_never_cancels() {
    // The platform's group holds one other URL: removing a URL that was never
    // monitored must not cancel the task that still has work to do.
    let mut a = DownloadActor::new();
    a.add_streamer(Some(1), "a");
    let c = a.remove_streamer(Some(1), "b");
    assert_eq!(c, None);
    assert_eq!(a.platform_count(), 1);
    assert_eq!(a.group_size(1), Some(1));
    assert_eq!(a.task_of(1), Some(0));
    assert_eq!(a.status_in_group(1, "a"), Some(StreamStatus::Idle));
    // The same holds for a larger group.
    a.add_streamer(Some(1), "c");
    let c2 = a.remove_streamer(Some(1), "b");
    assert_eq!(c2, None);
    assert_eq!(a.group_size(1), Some(2));
    assert_eq!(a.task_of(1), Some(0));
}

#[test]
fn removing_one_of_several_urls_keeps_the_task() {
    let mut a = DownloadActor::new();
    a.add_streamer(Some(1), "a");
    a.add_streamer(Some(1), "b");
    let c = a.remove_streamer(Some(1), "a");
    assert_eq!(c, None);
    assert_eq!(a.group_size(1), Some(1));
    assert_eq!(a.task_of(1), Some(0));
}

#[test]
fn readd_resets_status_without_a_duplicate_entry() {
    let mut a = DownloadActor::new();
    a.add_streamer(Some(1), "a");
    a.add_streamer(Some(1), "b");
    a.record_inspection(1, "a", StreamStatus::Idle, true);
    assert_eq!(a.status_in_group(1, "a"), Some(StreamStatus::Downloading));
    let s = a.add_streamer(Some(1), "a");
    assert_eq!(s, None);
    assert_eq!(a.group_size(1), Some(2));
    assert_eq!(a.status_in_group(1, "a"), Some(StreamStatus::Idle));
}

#[test]
fn successful_poll_while_idle_settles_on_downloading() {
    let mut a = DownloadActor::new();
    a.add_streamer(Some(1), "a");
    let mut cursor: usize = 0;
    let (url, status) = a.poll_next(1, &mut cursor).unwrap();
    assert_eq!(url, "a");
    assert_eq!(status, StreamStatus::Idle);
    a.record_inspection(1, &url, status, true);
    assert_eq!(a.status_in_group(1, "a"), Some(StreamStatus::Downloading));
    let (url2, status2) = a.poll_next(1, &mut cursor).unwrap();
    assert_eq!(status2, StreamStatus::Downloading);
    a.record_inspection(1, &url2, status2, true);
    assert_eq!(a.status_in_group(1, "a"), Some(StreamStatus::Downloading));
}

#[test]
fn failed_poll_keeps_the_status() {
    let mut a = DownloadActor::new();
    a.add_streamer(Some(1), "a");
    a.record_inspection(1, "a", StreamStatus::Idle, false);
    assert_eq!(a.status_in_group(1, "a"), Some(StreamStatus::Idle));
    a.record_inspection(1, "a", StreamStatus::Idle, true);
    a.record_inspection(1, "a", StreamStatus::Downloading, false);
    assert_eq!(a.status_in_group(1, "a"), Some(StreamStatus::Downloading));
}

#[test]
fn racing_add_and_remove_serialize_to_one_of_two_outcomes() {
    // Add then remove: the URL ends absent, and the task the add spawned is
    // exactly the one the remove cancels — nothing leaks.
    let mut a = DownloadActor::new();
    let spawned = a.add_streamer(Some(1), "a");
    let cancelled = a.remove_streamer(Some(1), "a");
    assert_eq!(spawned, Some(0));
    assert_eq!(cancelled, Some(0));
    assert_eq!(a.platform_count(), 0);
    assert_eq!(a.status_in_group(1, "a"), None);
    // Remove then add: the URL ends present at Idle.
    let mut b = DownloadActor::new();
    let cancelled = b.remove_streamer(Some(1), "a");
    assert_eq!(cancelled, None);
    let spawned = b.add_streamer(Some(1), "a");
    assert_eq!(spawned, Some(0));
    assert_eq!(b.status_in_group(1, "a"), Some(StreamStatus::Idle));
}

#[test]
fn bootstrap_spawns_one_task_per_distinct_platform() {
    let mut a = DownloadActor::new();
    let list = vec![
        StreamerSource { platform: Some(1), url: "a".to_string() },
        StreamerSource { platform: Some(2), url: "b".to_string() },
        StreamerSource { platform: Some(1), url: "c".to_string() },
        StreamerSource { platform: None, url: "d".to_string() },
    ];
    let spawned = a.run(list);
    assert_eq!(spawned, vec![0, 1]);
    assert_eq!(a.platform_count(), 2);
    assert_eq!(a.group_size(1), Some(2));
    assert_eq!(a.group_size(2), Some(1));
    assert_eq!(a.next_task_id(), 2);
}

#[test]
fn stale_write_back_after_remove_is_suppressed() {
    let mut a = DownloadActor::new();
    a.add_streamer(Some(1), "a");
    a.add_streamer(Some(1), "b");
    // "a" was read at Idle; it is removed while its inspection is in flight.
    a.remove_streamer(Some(1), "a");
    a.record_inspection(1, "a", StreamStatus::Idle, true);
    assert_eq!(a.status_in_group(1, "a"), None);
    assert_eq!(a.group_size(1), Some(1));
}

#[test]
fn poll_next_reports_a_torn_down_group() {
    let mut a = DownloadActor::new();
    a.add_streamer(Some(1), "a");
    a.remove_streamer(Some(1), "a");
    let mut cursor: usize = 5;
    assert_eq!(a.poll_next(1, &mut cursor), None);
    assert_eq!(cursor, 5);
}
