//! Common types and functions for puzzle simulation.

pub mod axes;
pub mod axis;
pub mod axis_set;
pub mod element;
pub mod elements;
pub mod grip;
pub mod grip_set;
pub mod grips;
pub mod piece;
pub mod group;
pub mod table;
pub mod twist;
pub mod twist_names;
pub mod vector;

pub use axis::Axis;
pub use axis_set::AxisSet;
pub use element::{Elem, TransformByElem};
pub use grip::Grip;
pub use grip_set::GripSet;
pub use piece::Piece;
pub use twist::{all_twists, Twist};
