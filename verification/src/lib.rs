//! The logic of zoomable price charts: coordinates, pointer, messages and what is drawn.
pub mod chart;
pub mod constants;
pub mod crosshair;
pub mod fetch;
pub mod float;
pub mod geometry;
pub mod interaction;
pub mod label;
pub mod laws;
pub mod message;
pub mod series;
pub mod state;
pub mod update;
pub mod view;
pub mod volume;
