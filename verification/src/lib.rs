//! Content-addressed install planning for a mod manager: the catalog's row
//! types, the VP container codec, the containment graph, the coverage solver
//! and the decisions of the acquisition pipeline.

pub mod catalog;
pub mod common;
pub mod config;
pub mod db;
pub mod files;
pub mod fsnebula;
pub mod hexcode;
pub mod paths;
pub mod vp;
