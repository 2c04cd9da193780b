//! Reading and writing Magic Cube 4D log files.

pub mod order;
pub mod readback;
pub mod scramble;
pub mod twist;
