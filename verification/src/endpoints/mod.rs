//! What the service's endpoints decide.

pub mod recommend_resource;
