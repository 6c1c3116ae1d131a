//! Human detection over the scans of a rotating LD19 lidar.
//!
//! For half a minute the sensor learns what the scene looks like at rest (`calibration`). From
//! then on what differs from that (`distance`) is divided into clusters, clusters that are humans
//! are followed from scan to scan (`tracker`), and every scan is drawn into a window (`frame`, on
//! top of `canvas`) or summed up for clients (`snapshot`). `session` runs the two programs reading
//! by reading; `run`, on top of `sweep`, states what holds of them over any number of readings.
//! Floating point stays outside: its results come in as bit patterns (`double`) and pixels.

pub mod calibration;
pub mod canvas;
pub mod distance;
pub mod double;
pub mod frame;
pub mod run;
pub mod session;
pub mod snapshot;
pub mod sweep;
pub mod tracker;
