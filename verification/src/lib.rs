//! Verified exploration of KiCad netlists.
pub mod design;
pub mod keyword_laws;
pub mod kicad_parser;
pub mod lists;
pub mod netlist;
pub mod parser;
pub mod ranking;
pub mod table;
pub mod tally;
pub mod text;
pub mod text_laws;
