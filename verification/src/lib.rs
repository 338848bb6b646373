pub mod gazer;
pub mod header;
pub mod text;
