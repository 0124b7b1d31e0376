pub mod element;
pub mod text;
pub mod keyseq;
pub mod context;
pub mod im_info;
pub mod engine;
pub mod reader;
pub mod render;
