//! APRS reports as the Open Glider Network sends them.
pub mod client;
pub mod comments;
pub mod parsing;
pub mod report;
pub mod time;
