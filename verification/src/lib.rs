pub mod access;
pub mod broker;
pub mod classifier;
pub mod context;
pub mod development;
pub mod exposure;
pub mod hosting;
pub mod intake;
pub mod isolate;
pub mod json;
pub mod model;
pub mod nodes;
pub mod order;
pub mod patterns;
pub mod queue;
pub mod references;
pub mod retrieval;
pub mod routing;
pub mod secrets;
pub mod source_edit;
pub mod spaces;
pub mod store;
pub mod text;
pub mod validation;
pub mod workspace;
