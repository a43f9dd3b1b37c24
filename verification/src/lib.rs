//! Verified core of a PipeWire audio router.

pub mod effects_chain;
pub mod ids;
pub mod ipc;
pub mod ladspa;
pub mod level;
pub mod lv2;
pub mod maps;
pub mod mic_requests;
pub mod model;
pub mod number;
pub mod order;
pub mod parametric_eq;
pub mod paths;
pub mod playback;
pub mod preset;
pub mod programs;
pub mod pw_engine;
pub mod router;
pub mod soundboard;
pub mod soundboard_api;
pub mod state;
pub mod text;
pub mod virtual_mic;
