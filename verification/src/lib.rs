//! The object tree of a declarative UI language, the pass that finds the
//! global singletons a component depends on, and the property listing that an
//! editor shows for an element.

pub mod collect_globals;
pub mod global_laws;
pub mod name_map;
pub mod names;
pub mod object_tree;
pub mod properties;
pub mod property_laws;
pub mod reserved;
pub mod syntax;
pub mod visit;
