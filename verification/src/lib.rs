//! Automation curve and frame-blend engine for a stage-lighting rig.
//!
//! The engine reconstructs piecewise cubic curves from sparse automation
//! keyframes, cuts the resulting timelines into named, independently
//! loopable clips at marker boundaries, evaluates every parameter of a clip
//! at a point in time, and blends the frames of two simultaneously playing
//! clips into one output frame with fader-weighted, saturating composition.
//!
//! Times, values, control-point fractions and fader positions are carried
//! as fixed-point integers with a scale of one thousand steps per unit, so
//! that every computation in the engine is exact integer arithmetic.

pub mod assoc;
pub mod curve;
pub mod decode;
pub mod envelope;
pub mod fixed;
pub mod frame;
pub mod pattern;
pub mod rig;
pub mod shows;
