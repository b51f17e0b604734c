//! Verified core of a Twitch live-stream recorder: request planning, playlist
//! handling, segment bookkeeping and the decisions of the download manager.

pub mod error;
pub mod json;
pub mod strings;
pub mod number;
pub mod query;
pub mod manager;
pub mod playlist;
pub mod http;
pub mod twitch;
pub mod threadpool;
pub mod legacy;
pub mod cli;
