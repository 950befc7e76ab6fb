//! Language rules for Generals INI files: the schema, the analyses over a
//! syntax tree, the workspace index, the W3D catalog reader, and the decisions
//! of the language server around them.

pub mod alike;
pub mod analyzer;
pub mod archive;
pub mod cache;
pub mod cli;
pub mod codes;
pub mod completion;
pub mod convert;
pub mod course;
pub mod diagnostics;
pub mod extract;
pub mod index;
pub mod keyset;
pub mod laws;
pub mod maplayer;
pub mod model;
pub mod navigation;
pub mod numbers;
pub mod objects;
pub mod order;
pub mod plan;
pub mod position;
pub mod preview;
pub mod progress;
pub mod reader;
pub mod readings;
pub mod rope;
pub mod rounding;
pub mod scan;
pub mod schema;
pub mod scopes;
pub mod semantic;
pub mod session;
pub mod settings;
pub mod shift;
pub mod steady;
pub mod syntax;
pub mod table;
pub mod text;
pub mod twin;
pub mod uri;
pub mod values;
pub mod w3d;
pub mod workspace;
