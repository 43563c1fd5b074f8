//! Which CPUs a command is allowed to run on.

pub mod cores;
pub mod laws;
pub mod list;
pub mod list_laws;
pub mod machine;
pub mod mask;
pub mod place;
