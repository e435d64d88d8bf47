//! What the robot around the solver decides without its hardware: how a
//! detected part of a piece names the piece, and how a move is put to the
//! motors.
pub mod builder;
pub mod motors;
pub mod partpiece;
pub mod picconfig;
pub mod pictureset;
