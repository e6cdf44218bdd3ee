//! Texforge: the verified core of a self-contained LaTeX tool chain.

pub mod archives;
pub mod chars;
pub mod commands;
pub mod compiler;
pub mod config;
pub mod diagrams;
pub mod domain;
pub mod embedding;
pub mod fidelity;
pub mod formatter;
pub mod grammar;
pub mod keeping;
pub mod linter;
pub mod measures;
pub mod mentions;
pub mod messages;
pub mod naming;
pub mod normal;
pub mod number;
pub mod order;
pub mod paths;
pub mod pdfdoc;
pub mod pdftext;
pub mod position;
pub mod provision;
pub mod raster;
pub mod reach;
pub mod size;
pub mod tally;
pub mod templates;
pub mod texparse;
pub mod texutil;
pub mod utils;
pub mod version;
pub mod version_checker;
pub mod wordcount;
pub mod wordset;
pub mod text;
