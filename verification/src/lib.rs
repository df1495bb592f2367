pub mod actor;
pub mod agent;
pub mod bridge;
pub mod bytes;
pub mod canvases;
pub mod db;
pub mod debug_log;
pub mod definitions;
pub mod delivery;
pub mod file_watcher;
pub mod graph_runtime;
pub mod keyed;
pub mod nrepl;
pub mod nrepl_commands;
pub mod nrepl_eval;
pub mod ocapn;
pub mod panels;
pub mod paths;
pub mod persistence;
pub mod preprocessor;
pub mod registry;
pub mod render;
pub mod scheme_convert;
pub mod text;
pub mod transport;
