//! The shell of a compositor: outputs, the workspaces that they show, and the windows on
//! those.
pub mod accesses;
pub mod announce;
pub mod arrivals;
pub mod changes;
pub mod config;
pub mod contents;
pub mod convert;
pub mod effects;
pub mod element;
pub mod fields;
pub mod gather;
pub mod geometry;
pub mod hotplug;
pub mod laws;
pub mod mode;
pub mod modes;
pub mod operations;
pub mod output;
pub mod possible;
pub mod protocol;
pub mod scene;
pub mod set;
pub mod shell;
pub mod split;
pub mod table;
pub mod toplevel;
pub mod windows;
pub mod workspace;
