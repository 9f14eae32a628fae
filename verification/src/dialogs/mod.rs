pub mod confirm_close;
