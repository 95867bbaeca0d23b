//! Topology keys: the partitioning domains a rule can be scoped to.

use vstd::prelude::*;

verus! {

/// The recognized topology domains of a rule.
#[derive(Debug, Clone, Copy, PartialEq, Eq, Structural)]
pub enum EntityRuleTopologyKey {
    Zone,
    Rack,
    Node,
}

impl EntityRuleTopologyKey {
    /// Parses a textual topology key; unrecognized keys yield `None`.
    pub fn from_key(s: &str) -> (r: Option<EntityRuleTopologyKey>)
        ensures
            r == spec_topology_of(s@),
    {
        if crate::order::eq_str(s, "zone") {
            Some(EntityRuleTopologyKey::Zone)
        } else if crate::order::eq_str(s, "rack") {
            Some(EntityRuleTopologyKey::Rack)
        } else if crate::order::eq_str(s, "node") {
            Some(EntityRuleTopologyKey::Node)
        } else {
            None
        }
    }

    pub fn as_str(&self) -> (r: &'static str)
        ensures
            r@ == spec_topology_str(*self),
    {
        match self {
            EntityRuleTopologyKey::Zone => "zone",
            EntityRuleTopologyKey::Rack => "rack",
            EntityRuleTopologyKey::Node => "node",
        }
    }
}

pub open spec fn spec_topology_of(s: Seq<char>) -> Option<EntityRuleTopologyKey> {
    if s == "zone"@ {
        Some(EntityRuleTopologyKey::Zone)
    } else if s == "rack"@ {
        Some(EntityRuleTopologyKey::Rack)
    } else if s == "node"@ {
        Some(EntityRuleTopologyKey::Node)
    } else {
        None
    }
}

pub open spec fn spec_topology_str(k: EntityRuleTopologyKey) -> Seq<char> {
    match k {
        EntityRuleTopologyKey::Zone => "zone"@,
        EntityRuleTopologyKey::Rack => "rack"@,
        EntityRuleTopologyKey::Node => "node"@,
    }
}

} // verus!
