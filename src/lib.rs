//! A lighting universe: named fixtures on the channels of one bus, dimmers
//! with a fade state machine, colour lights, the frames sent by the output
//! driver, and transitions that advance fades one pass at a time.
pub mod fade;
pub mod fixture;
pub mod universe;
