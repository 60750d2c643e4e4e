//! The state of the direct download: which phase it is in, for which game,
//! and the moves the commands make on it (start, pause, resume, fail). Speeds
//! and percentages, which need the clock and floating point, are worked out
//! by the program from the counts kept here.
use vstd::prelude::*;

verus! {

/// The phase of the direct download, with the counts of a running or paused
/// one.
pub enum DownloadStatus {
    Idle,
    Initializing,
    Downloading { files: usize, bytes_downloaded: u64, total_bytes: u64 },
    Paused { files: usize, bytes_downloaded: u64, total_bytes: u64 },
    Completed,
    Error(String),
}

/// The download state shared by the commands.
pub struct DownloadState {
    pub status: DownloadStatus,
    pub active_game_id: Option<String>,
}

/// The phase a pause leads to: a running download is paused with its counts;
/// any other phase cannot be paused.
pub open spec fn paused(s: DownloadStatus) -> Option<DownloadStatus> {
    match s {
        DownloadStatus::Downloading { files, bytes_downloaded, total_bytes } =>
            Some(DownloadStatus::Paused { files, bytes_downloaded, total_bytes }),
        _ => None,
    }
}

/// The phase a resume leads to: a paused download runs again with its
/// counts; any other phase cannot be resumed.
pub open spec fn resumed(s: DownloadStatus) -> Option<DownloadStatus> {
    match s {
        DownloadStatus::Paused { files, bytes_downloaded, total_bytes } =>
            Some(DownloadStatus::Downloading { files, bytes_downloaded, total_bytes }),
        _ => None,
    }
}

/// The label the status view shows for a phase.
pub open spec fn status_label_of(s: DownloadStatus) -> Seq<char> {
    match s {
        DownloadStatus::Idle => "Idle"@,
        DownloadStatus::Initializing => "Initializing"@,
        DownloadStatus::Downloading { files, .. } => "Downloading "@ + crate::text::decimal(files as nat) + " files"@,
        DownloadStatus::Paused { .. } => "Paused"@,
        DownloadStatus::Completed => "Completed"@,
        DownloadStatus::Error(e) => "Error: "@ + e@,
    }
}

pub open spec fn opt_id(o: Option<String>) -> Option<Seq<char>> {
    match o {
        Some(s) => Some(s@),
        None => None,
    }
}

impl DownloadState {
    /// Idle, with no game.
    pub fn new() -> (r: DownloadState)
        ensures
            r.status == DownloadStatus::Idle,
            r.active_game_id is None,
    {
        DownloadState { status: DownloadStatus::Idle, active_game_id: None }
    }

    /// Back to idle, with no game.
    pub fn reset(&mut self)
        ensures
            final(self).status == DownloadStatus::Idle,
            final(self).active_game_id is None,
    {
        self.status = DownloadStatus::Idle;
        self.active_game_id = None;
    }

    /// Starts a download of the game: refused while one is running;
    /// otherwise the state turns to initializing for that game.
    pub fn begin(&mut self, app_id: &str) -> (r: Result<(), String>)
        ensures
            old(self).status is Downloading ==> {
                &&& r matches Err(m) && m@ == "Download already in progress"@
                &&& final(self).status == old(self).status
                &&& opt_id(final(self).active_game_id) == opt_id(old(self).active_game_id)
            },
            !(old(self).status is Downloading) ==> {
                &&& r is Ok
                &&& final(self).status == DownloadStatus::Initializing
                &&& opt_id(final(self).active_game_id) == Some(app_id@)
            },
    {
        match self.status {
            DownloadStatus::Downloading { .. } => Err("Download already in progress".to_string()),
            _ => {
                self.status = DownloadStatus::Initializing;
                self.active_game_id = Some(app_id.to_string());
                Ok(())
            },
        }
    }

    /// Pauses a running download, keeping its counts.
    pub fn pause(&mut self) -> (r: Result<String, String>)
        ensures
            opt_id(final(self).active_game_id) == opt_id(old(self).active_game_id),
            match paused(old(self).status) {
                Some(s) => final(self).status == s && (r matches Ok(m) && m@ == "Paused"@),
                None => final(self).status == old(self).status && (r matches Err(m) && m@ == "Cannot pause: not downloading"@),
            },
    {
        match self.status {
            DownloadStatus::Downloading { files, bytes_downloaded, total_bytes } => {
                self.status = DownloadStatus::Paused { files, bytes_downloaded, total_bytes };
                Ok("Paused".to_string())
            },
            _ => Err("Cannot pause: not downloading".to_string()),
        }
    }

    /// Resumes a paused download with its counts.
    pub fn resume(&mut self) -> (r: Result<String, String>)
        ensures
            opt_id(final(self).active_game_id) == opt_id(old(self).active_game_id),
            match resumed(old(self).status) {
                Some(s) => final(self).status == s && (r matches Ok(m) && m@ == "Resumed"@),
                None => final(self).status == old(self).status && (r matches Err(m) && m@ == "Cannot resume: not paused"@),
            },
    {
        match self.status {
            DownloadStatus::Paused { files, bytes_downloaded, total_bytes } => {
                self.status = DownloadStatus::Downloading { files, bytes_downloaded, total_bytes };
                Ok("Resumed".to_string())
            },
            _ => Err("Cannot resume: not paused".to_string()),
        }
    }

    /// Records a failure with its message.
    pub fn fail(&mut self, msg: &str)
        ensures
            final(self).status matches DownloadStatus::Error(m) && m@ == msg@,
            opt_id(final(self).active_game_id) == opt_id(old(self).active_game_id),
    {
        self.status = DownloadStatus::Error(msg.to_string());
    }

    /// The label of the current phase.
    pub fn status_label(&self) -> (r: String)
        ensures
            r@ == status_label_of(self.status),
    {
        match &self.status {
            DownloadStatus::Idle => "Idle".to_string(),
            DownloadStatus::Initializing => "Initializing".to_string(),
            DownloadStatus::Downloading { files, .. } => {
                let n = crate::text::decimal_string(*files as u64);
                crate::text::concat3("Downloading ", &n, " files")
            },
            DownloadStatus::Paused { .. } => "Paused".to_string(),
            DownloadStatus::Completed => "Completed".to_string(),
            DownloadStatus::Error(e) => crate::text::concat("Error: ", e),
        }
    }
}

/// Pausing a running download and resuming it gives back the same download,
/// counts and all; a paused one resumed and paused again is as it was.
pub proof fn law_pause_then_resume(s: DownloadStatus)
    ensures
        s is Downloading ==> (paused(s) matches Some(p) && resumed(p) == Some(s)),
        s is Paused ==> (resumed(s) matches Some(d) && paused(d) == Some(s)),
{
}

} // verus!
