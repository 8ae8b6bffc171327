//! Drift's core: torrent categorisation, magnet parsing, the download queue,
//! the persisted torrent list and the decisions behind the progress loop.

pub mod text;
pub mod category;
pub mod paths;
pub mod magnet;
pub mod engine;
pub mod commands;
pub mod progress;
pub mod events;
pub mod clipboard;
pub mod launch;
pub mod seeding;
pub mod settings;
pub mod queue;
pub mod queue_laws;
pub mod state;
pub mod updater;
pub mod tray;
pub mod persist;
