pub mod integrity;
pub mod library;
pub mod steam_install;
pub mod import;
pub mod direct_download;
pub mod watcher;
pub mod install;
pub mod search;
pub mod system;
