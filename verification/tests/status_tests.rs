use stream_monitor::status::{advance_status, StreamStatus};

#[test]
fn idle_becomes_downloading_on_live() {
    assert_eq!(
        advance_status(StreamStatus::Idle, true),
        StreamStatus::Downloading
    );
}

#[test]
fn downloading_stays_downloading_on_live() {
    assert_eq!(
        advance_status(StreamStatus::Downloading, true),
        StreamStatus::Downloading
    );
}

#[test]
fn pending_stays_pending_on_live() {
    assert_eq!(
        advance_status(StreamStatus::Pending, true),
        StreamStatus::Pending
    );
}

#[test]
fn uploading_stays_uploading_on_live() {
    assert_eq!(
        advance_status(StreamStatus::Uploading, true),
        StreamStatus::Uploading
    );
}

#[test]
fn failure_keeps_every_status() {
    let all = [
        StreamStatus::Idle,
        StreamStatus::Pending,
        StreamStatus::Downloading,
        StreamStatus::Uploading,
    ];
    for status in all {
        assert_eq!(advance_status(status, false), status);
    }
}
