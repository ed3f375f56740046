//! Conversion of OpenDocument files and PDF glyph streams into a simple document model.

pub mod archive;
pub mod backend;
pub mod backend_rules;
pub mod block_rules;
pub mod blocks;
pub mod document;
pub mod line_laws;
pub mod line_rules;
pub mod lines;
pub mod list_laws;
pub mod list_rules;
pub mod lists;
pub mod parse;
pub mod run_rules;
pub mod runs;
pub mod sheet_rules;
pub mod sheets;
pub mod store;
pub mod store_rules;
pub mod style_rules;
pub mod styles;
pub mod table_rules;
pub mod tables;
pub mod text;
pub mod text_rules;
pub mod xml;
pub mod xml_rules;
