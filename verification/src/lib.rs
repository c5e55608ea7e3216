//! Multi-car elevator group-control scheduler.
//!
//! A bank of cars serves hall calls (a floor plus a desired direction) and
//! in-cabin destination requests.  The core is a pure update function from
//! (state, event) to (next state, delayed follow-up events); the surrounding
//! event loop and user interface only feed events in and render snapshots.

pub mod app;
pub mod conf;
pub mod elevator;
pub mod floor;
pub mod floor_btn;
pub mod laws;
pub mod lift;
pub mod message;
pub mod scheduler;
pub mod state;
#[allow(non_snake_case)]
pub mod upDownElevatorFloor;
pub mod up_down_elevator_floor;
pub mod util;
