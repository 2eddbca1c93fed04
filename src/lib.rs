//! Salary records read from comma-separated text, and exact statistics and
//! features computed over them.
pub mod features;
pub mod number;
pub mod record;
pub mod stats;
pub mod text;
