//! Markdown parse-and-annotate pipeline: annotated HTML, a table of contents
//! with collision-free anchors, reading statistics and a line-offset index,
//! together with the decisions of the editor around it (export, file checks,
//! change debouncing).

pub mod text;
pub mod escape;
pub mod anchor;
pub mod event;
pub mod parser;
pub mod export;
pub mod commands;
pub mod file_service;
