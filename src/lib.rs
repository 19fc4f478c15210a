pub mod asar;
pub mod diff;
pub mod highlight;
pub mod logic;
pub mod pathmap;
pub mod render;
pub mod state;
