//! Core engine of a PackFile editor: the archive container codec, the
//! schema-driven table codec, and the cross-table reference resolver.
//!
//! The container format ("PackFile") is a binary archive holding logical
//! entries; tables embedded in entries are decoded against versioned schema
//! definitions into typed rows.  Everything here is plain data and pure
//! computation: file and network I/O, as well as presentation, live outside
//! this crate and talk to it through plain values, most conveniently
//! through the request-response boundary in [`session`].

mod cell;
mod columns;
mod config;
mod cursor;
mod dependency;
mod diagnostics;
mod error;
mod packfile;
mod schema;
mod selection;
mod session;
mod settings;
mod table;
mod text;

pub use cell::DecodedData;
pub use columns::clean_column_names;
pub use columns::get_fields_sorted;
pub use config::Config;
pub use dependency::cell_text;
pub use dependency::generate_pak;
pub use dependency::get_reference_data;
pub use dependency::DependencyData;
pub use diagnostics::DiagnosticLevel;
pub use diagnostics::TableDiagnostic;
pub use diagnostics::TableDiagnosticReport;
pub use diagnostics::TableDiagnosticReportType;
pub use error::DecodeReason;
pub use error::RpfmError;
pub use packfile::decode_pack;
pub use packfile::transform;
pub use packfile::Entry;
pub use packfile::PackFile;
pub use packfile::PFHFileType;
pub use packfile::PFHFlags;
pub use packfile::PFHVersion;
pub use schema::Definition;
pub use schema::Field;
pub use schema::FieldType;
pub use schema::Schema;
pub use selection::dedup_indexes_per_row;
pub use selection::sort_column;
pub use selection::sort_indexes_by_model;
pub use session::Command;
pub use session::Response;
pub use session::Session;
pub use settings::update_recent_files;
pub use settings::Settings;
pub use table::decode_db;
pub use table::merge_tables;
pub use table::Table;
