//! A Spotlight-style launcher's search logic: desktop entries, providers and ranking.
pub mod text;
pub mod desktop_entry;
pub mod providers;
pub mod ranking;
