pub mod layout;
pub mod terminal;
pub mod text;
pub mod keymap;
pub mod profile;
pub mod preferences;
pub mod dialogs;
pub mod session;
pub mod pane_header;
