//! The verified core of llamactl: model files, profiles, the scheduler and the
//! terminal front end's state, as functions from plain values to plain values.
pub mod benchmark;
pub mod benchmark_report;
pub mod browser;
pub mod cache;
pub mod commands;
pub mod config;
pub mod dashboard;
pub mod dialogs;
pub mod drm;
pub mod editing;
pub mod editor;
pub mod figures;
pub mod gguf;
pub mod huggingface;
pub mod json;
pub mod laws;
pub mod metadata;
pub mod models;
pub mod pattern;
pub mod process;
pub mod profile_editor;
pub mod profile_list;
pub mod profiles;
pub mod report;
pub mod scheduler;
pub mod swap;
pub mod table;
pub mod telemetry;
pub mod templates;
pub mod text;
pub mod ui;
pub mod update;
pub mod view;
