pub mod escape;
pub mod echo;
pub mod laws;
