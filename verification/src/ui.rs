pub mod element;
pub mod header;
pub mod window;
