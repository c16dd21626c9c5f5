pub mod checks;
pub mod args;
pub mod plan;
pub mod system_tool;
pub mod graph_generator;
pub mod external_dependency;
pub mod registry;
