//! Verified core of a smart-home floor-plan application: colours, the
//! vertex ring structure used by the polygon-offsetting skeleton, layout
//! data and its rules, Home Assistant state decisions, occupancy tracking
//! and the client's polling of the server.

pub mod color;
pub mod edit_mode;
pub mod fetch;
pub mod furniture;
pub mod hex_color;
pub mod home_assistant;
mod ids;
pub mod layout;
pub mod light_control;
pub mod occupancy;
pub mod packets;
pub mod skeleton;
pub mod sync;
pub mod text;
pub mod vertex_queue;
