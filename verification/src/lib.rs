pub mod chars;
pub mod number;
pub mod json;
pub mod inbounds;
pub mod console;
pub mod metric;
pub mod names;
pub mod command;
pub mod outside;
pub mod panel;
pub mod sync;
