//! Core logic: locale catalogs, source usages, analysis and auto-fix.
pub mod text;
pub mod source;
pub mod json;
pub mod locale;
pub mod analysis;
pub mod fix;
pub mod glob;
pub use crate::cli::Config;
