pub mod broadcast;
pub mod title;
pub mod monitor;
pub mod margin;
