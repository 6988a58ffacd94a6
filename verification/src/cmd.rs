//! One module for each command.

pub mod dups;
pub mod loops;
pub mod top;
pub mod dang;
