pub mod text;
pub mod report;
pub mod memory;
pub mod path;
pub mod scanner;
pub mod state;
pub mod investigation;
pub mod export;
pub mod view_model;
pub mod memory_view;
pub mod screens;
pub mod session;
pub mod analyzer;
pub mod panels;
pub mod coordinator;
