//! A library to parse Verilog/SystemVerilog filelist files (`.f` manifests):
//! line classification, environment-variable substitution, and recursive
//! aggregation of referenced sub-filelists into one result.

pub mod text;
pub mod subst;
pub mod line_parser;
pub mod file_parser;

pub use file_parser::Aggregator;
pub use file_parser::Filelist;
pub use file_parser::ReadError;
pub use file_parser::parse_file;
pub use line_parser::LineType;
pub use line_parser::parse_line;
pub use subst::substitute;
