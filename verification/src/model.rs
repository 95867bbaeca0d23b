//! The rule model: entities, rules, metadata, topology keys.

pub mod entity;
pub mod env;
pub mod rule;
pub mod topology;

pub use entity::{Entity, EntityName, EntityPriority, EntitySource};
pub use rule::{EntityRule, EntityRuleMetadata, EntityRuleSource, EntityRuleType};
pub use env::{Env, EnvParseError};
pub use topology::EntityRuleTopologyKey;
