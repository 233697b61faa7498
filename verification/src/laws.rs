//! What holds of the library's operations, stated over what goes in and what comes out.
pub mod arguments;
pub mod bindings;
pub mod cursors;
pub mod drafts;
pub mod editors;
pub mod estimates;
pub mod fields;
pub mod files;
pub mod grafts;
pub mod keys;
pub mod library;
pub mod monitors;
pub mod offers;
pub mod placements;
pub mod removals;
pub mod reports;
pub mod repositories;
pub mod samples;
pub mod schedules;
pub mod servers;
pub mod settings;
pub mod texts;
pub mod writings;
