//! Entities: named participants of the constraint system, each carrying its
//! require and exclude rule sets, a source, and a priority.

use vstd::prelude::*;

use crate::model::rule::{dv_rules, insert_rule, EntityRule, EntityRuleType, RuleView};

verus! {

/// An entity's unique name.
#[derive(Debug, PartialEq, Eq)]
pub struct EntityName(pub String);

impl View for EntityName {
    type V = Seq<char>;

    open spec fn view(&self) -> Seq<char> {
        self.0@
    }
}

impl DeepView for EntityName {
    type V = Seq<char>;

    open spec fn deep_view(&self) -> Seq<char> {
        self.0@
    }
}

impl Clone for EntityName {
    fn clone(&self) -> (r: Self)
        ensures
            r@ == self@,
    {
        EntityName(self.0.clone())
    }
}

impl EntityName {
    pub fn as_str(&self) -> (r: &str)
        ensures
            r@ == self@,
    {
        self.0.as_str()
    }
}

/// Where an entity was defined: a file path, or unknown.
#[derive(Debug, PartialEq, Eq)]
pub enum EntitySource {
    File(String),
    Unknown,
}

#[verifier::ext_equal]
pub enum EntitySourceView {
    File(Seq<char>),
    Unknown,
}

impl View for EntitySource {
    type V = EntitySourceView;

    open spec fn view(&self) -> EntitySourceView {
        match self {
            EntitySource::File(p) => EntitySourceView::File(p@),
            EntitySource::Unknown => EntitySourceView::Unknown,
        }
    }
}

impl DeepView for EntitySource {
    type V = EntitySourceView;

    open spec fn deep_view(&self) -> EntitySourceView {
        self.view()
    }
}

impl Clone for EntitySource {
    fn clone(&self) -> (r: Self)
        ensures
            r@ == self@,
    {
        match self {
            EntitySource::File(p) => EntitySource::File(p.clone()),
            EntitySource::Unknown => EntitySource::Unknown,
        }
    }
}

impl Default for EntitySource {
    fn default() -> (r: Self)
        ensures
            r@ == EntitySourceView::Unknown,
    {
        EntitySource::Unknown
    }
}

impl EntitySource {
    /// The path, or the word "unknown".
    pub fn as_str(&self) -> (r: &str)
        ensures
            r@ == spec_entity_source_str(self@),
    {
        match self {
            EntitySource::File(p) => p.as_str(),
            EntitySource::Unknown => "unknown",
        }
    }
}

pub open spec fn spec_entity_source_str(s: EntitySourceView) -> Seq<char> {
    match s {
        EntitySourceView::File(p) => p,
        EntitySourceView::Unknown => "unknown"@,
    }
}

/// How strongly an entity's constraints weigh in recommendations.
#[derive(Debug, Clone, Copy, PartialEq, Eq, Structural)]
pub enum EntityPriority {
    Critical,
    Default,
}

impl Default for EntityPriority {
    fn default() -> (r: Self)
        ensures
            r == EntityPriority::Default,
    {
        EntityPriority::Default
    }
}

impl EntityPriority {
    /// Parses a priority; anything but "critical" is the default.
    pub fn from_str(v: &str) -> (r: Self)
        ensures
            r == (if v@ == "critical"@ {
                EntityPriority::Critical
            } else {
                EntityPriority::Default
            }),
    {
        if crate::order::eq_str(v, "critical") {
            EntityPriority::Critical
        } else {
            EntityPriority::Default
        }
    }

    pub fn as_str(&self) -> (r: &'static str)
        ensures
            r@ == (match *self {
                EntityPriority::Critical => "critical"@,
                EntityPriority::Default => "default"@,
            }),
    {
        match self {
            EntityPriority::Critical => "critical",
            EntityPriority::Default => "default",
        }
    }

    pub fn is_critical(&self) -> (r: bool)
        ensures
            r == (*self == EntityPriority::Critical),
    {
        matches!(self, EntityPriority::Critical)
    }

    pub fn is_default(&self) -> (r: bool)
        ensures
            r == (*self == EntityPriority::Default),
    {
        matches!(self, EntityPriority::Default)
    }
}

/// A named entity with its rule sets.
///
/// The rule vectors are kept sorted and duplicate-free by the constructors
/// and by `add_require`/`add_exclude`.
#[derive(Debug, PartialEq, Eq)]
pub struct Entity {
    pub name: EntityName,
    pub requires: Vec<EntityRule>,
    pub excludes: Vec<EntityRule>,
    pub source: EntitySource,
    pub priority: EntityPriority,
}

#[verifier::ext_equal]
pub struct EntityView {
    pub name: Seq<char>,
    pub requires: Seq<RuleView>,
    pub excludes: Seq<RuleView>,
    pub source: EntitySourceView,
    pub priority: EntityPriority,
}

impl View for Entity {
    type V = EntityView;

    open spec fn view(&self) -> EntityView {
        EntityView {
            name: self.name@,
            requires: dv_rules(self.requires@),
            excludes: dv_rules(self.excludes@),
            source: self.source@,
            priority: self.priority,
        }
    }
}

impl DeepView for Entity {
    type V = EntityView;

    open spec fn deep_view(&self) -> EntityView {
        self.view()
    }
}

impl EntityView {
    /// All rules, requires first.
    pub open spec fn all_rules(self) -> Seq<RuleView> {
        self.requires + self.excludes
    }

    /// An entity without rules is a dummy and is skipped by engines.
    pub open spec fn is_dummy(self) -> bool {
        self.requires.len() == 0 && self.excludes.len() == 0
    }
}

impl Clone for Entity {
    fn clone(&self) -> (r: Self)
        ensures
            r@ == self@,
    {
        let r = Entity {
            name: self.name.clone(),
            requires: crate::model::rule::clone_rules_vec(&self.requires),
            excludes: crate::model::rule::clone_rules_vec(&self.excludes),
            source: self.source.clone(),
            priority: self.priority,
        };
        proof {
            assert(r@ =~= self@);
        }
        r
    }
}

impl Entity {
    pub fn new(name: &str) -> (r: Self)
        ensures
            r@.name == name@,
            r@.requires.len() == 0,
            r@.excludes.len() == 0,
            r@.source == EntitySourceView::Unknown,
            r@.priority == EntityPriority::Default,
    {
        Entity {
            name: EntityName(name.to_owned()),
            requires: Vec::new(),
            excludes: Vec::new(),
            source: EntitySource::Unknown,
            priority: EntityPriority::Default,
        }
    }

    pub fn new_with_source(name: &str, source: EntitySource) -> (r: Self)
        ensures
            r@.name == name@,
            r@.requires.len() == 0,
            r@.excludes.len() == 0,
            r@.source == source@,
            r@.priority == EntityPriority::Default,
    {
        Entity {
            name: EntityName(name.to_owned()),
            requires: Vec::new(),
            excludes: Vec::new(),
            source,
            priority: EntityPriority::Default,
        }
    }

    pub fn new_with_source_and_priority(name: &str, source: EntitySource, priority: EntityPriority)
        -> (r: Self)
        ensures
            r@.name == name@,
            r@.requires.len() == 0,
            r@.excludes.len() == 0,
            r@.source == source@,
            r@.priority == priority,
    {
        Entity {
            name: EntityName(name.to_owned()),
            requires: Vec::new(),
            excludes: Vec::new(),
            source,
            priority,
        }
    }

    /// Adds a require rule at its sorted position; a duplicate is dropped.
    pub fn add_require(&mut self, rule: EntityRule)
        requires
            rule@.rtype == EntityRuleType::Require,
        ensures
            final(self)@ == (EntityView {
                requires: insert_rule(old(self)@.requires, rule@),
                ..old(self)@
            }),
    {
        crate::model::rule::insert_rule_vec(&mut self.requires, rule);
        proof {
            assert(final(self)@ =~= EntityView {
                requires: insert_rule(old(self)@.requires, rule@),
                ..old(self)@
            });
        }
    }

    /// Adds an exclude rule at its sorted position; a duplicate is dropped.
    pub fn add_exclude(&mut self, rule: EntityRule)
        requires
            rule@.rtype == EntityRuleType::Exclude,
        ensures
            final(self)@ == (EntityView {
                excludes: insert_rule(old(self)@.excludes, rule@),
                ..old(self)@
            }),
    {
        crate::model::rule::insert_rule_vec(&mut self.excludes, rule);
        proof {
            assert(final(self)@ =~= EntityView {
                excludes: insert_rule(old(self)@.excludes, rule@),
                ..old(self)@
            });
        }
    }

    pub fn set_source(&mut self, source: EntitySource)
        ensures
            final(self)@ == (EntityView { source: source@, ..old(self)@ }),
    {
        self.source = source;
        proof {
            assert(final(self)@ =~= EntityView { source: source@, ..old(self)@ });
        }
    }

    /// How many rules the entity carries in total.
    pub fn rules_len(&self) -> (r: usize)
        requires
            self@.requires.len() + self@.excludes.len() <= usize::MAX,
        ensures
            r == self@.requires.len() + self@.excludes.len(),
    {
        self.requires.len() + self.excludes.len()
    }

    /// All rules of the entity, requires first, as copies.
    pub fn rules(&self) -> (r: Vec<EntityRule>)
        ensures
            dv_rules(r@) == self@.all_rules(),
    {
        let mut out = crate::model::rule::clone_rules_vec(&self.requires);
        let mut excl = crate::model::rule::clone_rules_vec(&self.excludes);
        out.append(&mut excl);
        proof {
            assert(dv_rules(out@) =~= self@.all_rules());
        }
        out
    }

    pub fn is_dummy(&self) -> (r: bool)
        ensures
            r == self@.is_dummy(),
    {
        self.requires.len() == 0 && self.excludes.len() == 0
    }
}

} // verus!
