//! What the commands decide and what they report.

pub mod build;
pub mod check;
pub mod clean;
pub mod doctor;
pub mod fmt;
pub mod headings;
pub mod init;
pub mod new;
pub mod outcomes;
pub mod outline;
pub mod pdf;
pub mod preview;
pub mod spell;
pub mod stats;
pub mod template;
pub mod uninstall;
