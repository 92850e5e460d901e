//! The search over hyper-parameters.

pub mod hyperparamgrid;
pub mod choices;
