//! Planning core of a Neovim plugin manager.

pub mod acquisition;
pub mod assembly;
pub mod config;
pub mod dag;
pub mod digest;
pub mod files;
pub mod generation;
pub mod identity;
pub mod install;
pub mod inventory;
pub mod lazy_registration;
pub mod lazy_type;
pub mod loaded;
pub mod lockfile;
pub mod log;
pub mod manifest;
pub mod merge;
pub mod names;
pub mod order;
pub mod pack_plan;
pub mod parse_error;
pub mod path;
pub mod patterns;
pub mod progress;
pub mod publication;
pub mod repo;
pub mod resolve;
pub mod scheduler;
pub mod semaphore;
pub mod sources;
pub mod text;
