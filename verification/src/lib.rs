//! Formwork's policy core: capability blueprints over normalized path patterns, monotonic
//! narrowing, layering, the credential floor, and the compiler that maps a blueprint onto the
//! mechanisms a host can enforce.

pub mod text;
pub mod path;
pub mod path_set;
pub mod path_text;
pub mod names;
pub mod blueprint;
pub mod narrow;
pub mod layer;
pub mod catalog;
pub mod provenance;
pub mod launcher;
pub mod discovery;
pub mod detect;
pub mod policy;
pub mod compile;
pub mod spec;
pub mod gateway;
pub mod learn;
pub mod render;
pub mod load;
pub mod confine;
pub mod seam;
pub mod seccomp;

pub use path_set::canonicalize_set;
