//! Numbers.

pub mod nimber;
pub mod rational;
pub mod rational_text;
