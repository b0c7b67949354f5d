pub mod propagation_model;
pub mod report_state;
pub mod descent_state;
pub mod propagate_relationship;
