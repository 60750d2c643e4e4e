use darkcore::direct_download::state::{DownloadState, DownloadStatus};

#[test]
fn start_pause_resume_cycle() {
    let mut st = DownloadState::new();
    assert!(matches!(st.status, DownloadStatus::Idle));
    assert_eq!(st.pause(), Err("Cannot pause: not downloading".to_string()));
    assert_eq!(st.begin("10"), Ok(()));
    assert!(matches!(st.status, DownloadStatus::Initializing));
    assert_eq!(st.active_game_id, Some("10".to_string()));
    st.status = DownloadStatus::Downloading { files: 3, bytes_downloaded: 50, total_bytes: 100 };
    assert_eq!(st.status_label(), "Downloading 3 files");
    assert_eq!(st.begin("11"), Err("Download already in progress".to_string()));
    assert_eq!(st.active_game_id, Some("10".to_string()));
    assert_eq!(st.pause(), Ok("Paused".to_string()));
    assert!(matches!(st.status, DownloadStatus::Paused { files: 3, bytes_downloaded: 50, total_bytes: 100 }));
    assert_eq!(st.status_label(), "Paused");
    assert_eq!(st.resume(), Ok("Resumed".to_string()));
    assert!(matches!(st.status, DownloadStatus::Downloading { files: 3, bytes_downloaded: 50, total_bytes: 100 }));
    assert_eq!(st.resume(), Err("Cannot resume: not paused".to_string()));
}

#[test]
fn failure_and_reset() {
    let mut st = DownloadState::new();
    st.fail("boom");
    assert_eq!(st.status_label(), "Error: boom");
    st.reset();
    assert_eq!(st.status_label(), "Idle");
    assert!(st.active_game_id.is_none());
}
