//! What the library promises: laws that hold of its functions together.
//!
//! Each law speaks of what comes in and what comes out. The ones about a single
//! module that need its inner lemmas stand in that module.

pub mod assets;
pub mod catalog;
pub mod completion;
pub mod convert;
pub mod definitions;
pub mod document;
pub mod files;
pub mod generations;
pub mod index;
pub mod lexing;
pub mod lists;
pub mod maplayer;
pub mod mesh;
pub mod messages;
pub mod models;
pub mod numbers;
pub mod objects;
pub mod offers;
pub mod options;
pub mod positions;
pub mod pragmas;
pub mod previews;
pub mod references;
pub mod reports;
pub mod scans;
pub mod schema;
pub mod semantic;
pub mod snippets;
pub mod structured;
pub mod targets;
pub mod text;
pub mod tree;
pub mod values;
pub mod w3d;
