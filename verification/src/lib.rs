//! Canonical forms of short partizan combinatorial games, with Domineering
//! and Ski Jumps as concrete rule sets.

pub mod bits;
pub mod domineering;
pub mod domineering_parts;
pub mod drawing;
pub mod dyadic_rational_number;
pub mod grid;
pub mod numeric;
pub mod report;
pub mod search;
pub mod short;
pub mod text;
