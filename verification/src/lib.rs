pub mod text;
pub mod moodle;
pub mod bot;
pub mod groups;
