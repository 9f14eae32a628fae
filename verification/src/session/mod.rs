pub mod persist;
pub mod session_view;
