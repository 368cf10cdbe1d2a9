//! Numbers of the binary interchange formats, computed on their bit patterns.
pub mod arith;
pub mod bounds;
pub mod close;
pub mod double;
pub mod exact;
pub mod facts;
pub mod format;
pub mod round;
pub mod single;
