pub mod config;

pub use config::Preferences;
