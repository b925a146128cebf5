pub mod text;
pub mod order;
pub mod package_map;
pub mod reconcile;
pub mod invocation;
pub mod manager;
pub mod presentation;
pub mod manifest;
pub mod commands;
