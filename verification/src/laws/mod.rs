//! What holds of the library's results on all inputs, said without the definitions that compute
//! them.
pub mod containers;
pub mod flows;
pub mod messages;
pub mod metrics;
pub mod policies;
pub mod reports;
pub mod rulesets;
pub mod settings;
pub mod shown;
pub mod text;
pub mod validation;
