//! Games with positions whose canonical forms the table works out.

pub mod ski_jumps;
