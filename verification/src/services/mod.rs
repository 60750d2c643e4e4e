pub mod downloader;
pub mod steam_api;
