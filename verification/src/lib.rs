//! The project and workspace registry, with the rules of its command line and
//! of the module that serves it.
pub mod audit;
pub mod cli;
pub mod differences;
pub mod effects;
pub mod entries;
pub mod enumerate;
pub mod error;
pub mod frame;
pub mod gauges;
pub mod ids;
pub mod json;
pub mod laws;
pub mod laws_answers;
pub mod laws_audit;
pub mod laws_cli;
pub mod laws_import;
pub mod laws_lines;
pub mod laws_liveness;
pub mod laws_paths;
pub mod laws_payload;
pub mod laws_placement;
pub mod laws_refusals;
pub mod laws_registration;
pub mod laws_render;
pub mod laws_repeat;
pub mod laws_replay;
pub mod laws_reports;
pub mod laws_reserved;
pub mod laws_resolution;
pub mod laws_rows;
pub mod laws_seed;
pub mod laws_service;
pub mod laws_wire;
pub mod liveness;
pub mod membership;
pub mod model;
pub mod mutations;
pub mod observed;
pub mod order;
pub mod paths;
pub mod payload;
pub mod queries;
pub mod register;
pub mod render;
pub mod replay;
pub mod replies;
pub mod request;
pub mod rows;
pub mod seed;
pub mod segments;
pub mod service;
pub mod store;
pub mod text;
pub mod upkeep;
