//! Three-camera composition of band recordings: the project model, the sync of
//! clips to a master recording, layouts, automatic grades and the decisions of
//! playback and export. Media, pictures and windows are handled elsewhere.

pub mod app;
pub mod arrange;
pub mod audio;
pub mod autograde;
pub mod calendar;
pub mod cli;
pub mod compose;
pub mod decoder;
pub mod discover;
pub mod engine;
pub mod export;
pub mod export_job;
pub mod ffmpeg;
pub mod laws;
pub mod layout;
pub mod model;
pub mod order;
pub mod panels;
pub mod placement;
pub mod player;
pub mod preview;
pub mod probe;
pub mod sampling;
pub mod sync;
pub mod text;
pub mod timeline;
pub mod transport;
pub mod units;
