//! What a trainer asks of its collaborators.

pub mod model_free_env;
