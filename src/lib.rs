//! Source-tree analysis: symbol extraction, repository maps, module graphs
//! and budgeted context slices.
pub mod text;
pub mod paths;
pub mod order;
pub mod syntax;
pub mod inspector;
pub mod mapper;
pub mod scanner;
pub mod slicer;
pub mod xml_builder;
