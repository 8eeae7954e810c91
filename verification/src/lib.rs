pub mod agent;
pub mod ansi;
pub mod app;
pub mod composer;
pub mod error;
pub mod footers;
pub mod local_time;
pub mod markdown;
pub mod model;
pub mod native_chrome;
pub mod spelled;
pub mod style;
pub mod text;
pub mod ui;
pub mod width;
