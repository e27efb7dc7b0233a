//! Verified core of an eye and head controlled mouse pointer.
//!
//! A mesh of face points goes in, frame by frame, and the keys that the user
//! presses; what is to be drawn, clicked and moved comes out. All quantities
//! are binary single precision numbers, and every contract says exactly which.

pub mod aiming;
pub mod controls;
pub mod display;
pub mod face;
pub mod frames;
pub mod laws;
pub mod measures;
pub mod motion;
pub mod number;
pub mod order;
pub mod pointer;
pub mod rounding;
pub mod session;
pub mod single;
pub mod steering;
pub mod text;
pub mod turning;
pub mod value;
