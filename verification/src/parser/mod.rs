//! Reading of KiCad's s-expression netlist export.
pub mod error;
pub mod escape_laws;
pub mod kicad_parser;
pub mod kicad_scanner;
pub mod net_read_laws;
pub mod netlist;
pub mod read_back;
pub mod read_laws;
pub mod readable_laws;
