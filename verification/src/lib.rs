//! Verified core of a funscript player that drives stroking and vibrating
//! devices: funscript action processing, the schedule behind the intensity
//! curve, the BPM calibration table, and the device-control state machine.

pub mod funscript;
pub mod window;
pub mod intensity;
pub mod calibration;
pub mod device_control;
