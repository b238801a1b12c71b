//! What holds of charts beyond what each function says of itself.
pub mod anchor;
pub mod coordinates;
pub mod crosshair;
pub mod drawing;
pub mod labels;
pub mod messages;
pub mod numbers;
pub mod placement;
pub mod pointer;
pub mod region;
pub mod round_trip;
pub mod wheel;
pub mod zoom;
