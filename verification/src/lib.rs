pub mod command;
pub mod paths;
pub mod project_tree;
pub mod rojo;
pub mod snapshot;
pub mod text;
