pub mod grid;
pub mod groups;
pub mod search;
pub mod text;
