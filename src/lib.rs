//! Keeps a cache of per-track analysis in step with a remote music library,
//! builds playlists from it and merges them into the remote play queue.
pub mod text;
pub mod paths;
pub mod cache;
pub mod sync;
pub mod playlist;
pub mod album;
pub mod queue;
pub mod reconcile;
pub mod session;
pub mod options;
