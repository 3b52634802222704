//! A pipeline engine for multi-stage program transformation.
//!
//! Pluggable tools cooperatively build up a typed intermediate representation of a program: the
//! IR. Each tool reads the IR as it stands and may add representations to it or put new ones
//! in the place of old ones. This crate holds the logic that coordinates them: the store of
//! representations, the organizer that lends out write permits which cannot conflict, the
//! queue of the tools that wait, the bookkeeping of the tools that run, and the layout of the
//! diagnostics directory.
//!
//! Nothing here starts a thread, opens a file or writes a log. The embedding program does
//! that: it carries out what the functions of this crate decide, and tells them what came of
//! it.

pub mod arbiter;
pub mod benchmark;
pub mod config;
pub mod diagnostics;
pub mod driver;
pub mod edit;
pub mod frozen;
pub mod fs;
pub mod full_source;
pub mod id;
pub mod id_set;
pub mod identify_project_kind;
pub mod ir;
pub mod load_raw_source;
pub mod name_map;
pub mod ordered;
pub mod raw_source_to_cargo_llm;
pub mod runner;
pub mod scheduler;
pub mod tagged;
pub mod text;
pub mod tools;
pub mod try_cargo_build;
pub mod utils;

pub use edit::Edit;
pub use id::Id;
pub use id_set::IdSet;
pub use ir::HarvestIR;
pub use ir::Representation;
