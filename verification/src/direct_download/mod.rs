pub mod downloader;
pub mod state;
