//! Verified core of the LIRA structural-model analyzer: element model,
//! connectivity analysis, LIRA document parsing and reinforcement tables.

pub mod types;
pub mod id_lists;
pub mod graph;
pub mod sortament;
pub mod performance;
pub mod render;
pub mod text;
pub mod lira_file;
pub mod lir_parser;
pub mod patterns;
pub mod text_format;
pub mod report;
pub mod decoding;
pub mod element_matching;
pub mod canvas;
pub mod xml_tags;
pub mod sli;
