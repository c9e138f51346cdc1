use vstd::prelude::*;

pub mod text;
pub mod project;
pub mod describe;
pub mod process;
pub mod order;
pub mod groups;
pub mod rows;
pub mod ports;
pub mod app;
pub mod screen;
pub mod laws;
