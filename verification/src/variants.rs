//! Game rule variants: pre-configured setups and a playability validator.

pub mod config_factory;

pub use config_factory::ConfigFactory;
pub use config_factory::VariantValidator;
