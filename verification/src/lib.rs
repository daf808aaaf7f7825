//! Convex hulls of finite sets of grid points, computed by gift wrapping
//! (the Jarvis march), with contracts that Verus proves.
//!
//! * [`point`] holds the point type and the orientation predicate.
//! * [`march`] says what the march is, as mathematics.
//! * [`convexity`] proves that the march draws a convex polygon around the input.
//! * [`gift_wrapping`] holds the march itself, in two styles.
//! * [`text`] cuts and splits the bytes of a line.
//! * [`decimal`] reads decimal numbers and holds them exactly.
//! * [`point_parser`] reads points from lines of text, onto one grid.

pub mod convexity;
pub mod decimal;
pub mod gift_wrapping;
pub mod march;
pub mod point;
pub mod point_parser;
pub mod text;
