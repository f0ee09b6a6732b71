pub mod browser;
pub mod paths;
