use vstd::prelude::*;

pub mod text;
pub mod paths;
pub mod vdf_model;
pub mod vdf_text;
pub mod utils;
pub mod game_path;
pub mod services;
pub mod api;
pub mod registry;
pub mod config;
pub mod vault;
pub mod profiles;
pub mod order;
pub mod app_list;
pub mod injector;
pub mod downloader;
pub mod codecs;
pub mod direct_download;
pub mod watcher;
pub mod vdf_injector;
pub mod desktop;
pub mod commands;
pub mod json;
pub mod json_number;

verus! {
} // verus!
