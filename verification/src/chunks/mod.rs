//! Encoders of the tables in __LINKEDIT.

pub mod bind_info;
pub mod bind_laws;
pub mod function_starts;
pub mod rebase_info;
pub mod split_info;
pub mod split_reading;
