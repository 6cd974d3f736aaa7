//! The headings and tasks of a tree of Markdown files: reading them out of the
//! files' text, ordering them, and browsing them as a list on a terminal.
pub mod app;
pub mod app_laws;
pub mod event_laws;
pub mod events;
pub mod extract;
pub mod extract_laws;
pub mod grammar;
pub mod grammar_laws;
pub mod item;
pub mod layout;
pub mod list;
pub mod order;
pub mod order_laws;
pub mod path;
pub mod path_laws;
pub mod pattern;
pub mod render;
pub mod render_laws;
pub mod scan;
pub mod scan_laws;
pub mod style;
pub mod text;
pub mod text_laws;
