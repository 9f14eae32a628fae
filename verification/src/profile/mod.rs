pub mod model;
pub mod scheme;

pub use model::{Profile, ProfileId, ProfileStore};
pub use scheme::{ColorScheme, ColorSchemeStore};
