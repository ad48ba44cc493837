//! The verified logic of a predator/prey boids aquarium: the species rules
//! and census, the camera key bindings, the catch tally, the statistics
//! text, the walk over a fish rig's body parts, and the schedule of the
//! headless frame capture.
use vstd::prelude::*;

pub mod camera;
pub mod capture;
pub mod hierarchy;
pub mod hud;
pub mod numerals;
pub mod score;
pub mod species;
