//! Presentation logic of an audiobook client.
pub mod browse;
pub mod connection;
pub mod double;
pub mod download_sheet;
pub mod downloads;
pub mod home;
pub mod item_detail;
pub mod library;
pub mod main_window;
pub mod models;
pub mod ordering;
pub mod player;
pub mod reading;
pub mod rounding;
pub mod settings;
pub mod sync;
pub mod text;
