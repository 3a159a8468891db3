pub mod code_action;
pub mod document;
pub mod laws;
pub mod position;
pub mod text;
