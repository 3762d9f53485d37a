pub mod agent;
pub mod cli;
pub mod diagnostic;
pub mod format;
pub mod profiles;
pub mod runner;
pub mod text;
