//! The process forest behind an interactive process viewer: assembling flat
//! process records into an ordered forest, rolling metrics up to ancestors,
//! ordering siblings, filtering by a search pattern and laying the result out
//! as lines of a tree, together with the state machine of a viewing session.

pub mod pattern;
pub mod process;
pub mod text;
pub mod tree;
pub mod treetop_app;
