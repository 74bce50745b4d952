//! What the editor's widgets decide, apart from how they are drawn.

pub mod piano_roll;
