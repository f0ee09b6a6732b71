pub mod bucket;
pub mod config;
pub mod dates;
pub mod front_matter;
pub mod note;
