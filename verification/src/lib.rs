//! The discrete core of a bouncing-balls scene: point masses fall under
//! gravity and bounce off a curve. The numeric integration and the drawing
//! belong to the program around this library; what the program decides in
//! whole steps is here, with what each decision guarantees.

pub mod bracket;
pub mod substep;
pub mod lattice;
pub mod hue;
pub mod polynomial;
pub mod pace;
