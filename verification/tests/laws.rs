use deployfix::model::{
    Entity, EntityName, EntityPriority, EntityRule, EntityRuleMetadata, EntityRuleSource,
    EntityRuleType, EntityRuleTopologyKey, EntitySource, Env,
};
use deployfix::numtext::parse_usize;
use deployfix::recommend::{recommend, recommend_policy_all, RecommendPolicy};
use deployfix::solver::{get_solver, EntityMap, EntityMapError, SolverOutput};
use deployfix::util::{rule_set_to_entity_set, split_by_metadata};

fn mono(source: &str, target: &str, rtype: EntityRuleType) -> EntityRule {
    EntityRule::mono(
        EntityName(source.to_string()),
        EntityName(target.to_string()),
        rtype,
        EntityRuleSource::Unknown,
        None,
    )
}

fn entity(name: &str, requires: Vec<EntityRule>, excludes: Vec<EntityRule>) -> Entity {
    Entity {
        name: EntityName(name.to_string()),
        requires,
        excludes,
        source: EntitySource::Unknown,
        priority: EntityPriority::default(),
    }
}

/// Duplicate names make the build fail, listing exactly the duplicated
/// names.
#[test]
fn test_duplicate_names_rejected() {
    let entities = vec![
        entity("a", vec![], vec![]),
        entity("b", vec![], vec![]),
        entity("a", vec![], vec![]),
    ];
    match EntityMap::build(&entities) {
        Err(EntityMapError::DuplicateEntityName(names)) => {
            assert_eq!(names.len(), 1);
            assert_eq!(names[0].as_str(), "a");
        }
        _ => panic!("expected a duplicate-name error"),
    }
}

/// A self-excluding entity is split into both siblings, and no entity of the
/// result excludes itself.
#[test]
fn test_self_conflict_split() {
    let entities = vec![entity(
        "pod",
        vec![],
        vec![mono("pod", "pod", EntityRuleType::Exclude)],
    )];
    let map = EntityMap::build(&entities).unwrap();
    let names: Vec<&str> = map.entities.iter().map(|e| e.name.0.as_str()).collect();
    assert!(names.contains(&"pod_1"));
    assert!(names.contains(&"pod_2"));
    for e in &map.entities {
        for r in &e.excludes {
            assert!(!r.is_in_target(e.name.0.as_str()));
        }
    }
    assert_eq!(map.self_conflicts.len(), 1);
    assert_eq!(map.self_conflicts[0].as_str(), "pod");
}

/// Merging with the satisfiable verdict is the identity on both sides.
#[test]
fn test_merge_identity() {
    let conflicts = vec![(
        "pod".to_string(),
        vec![mono("pod", "pod", EntityRuleType::Exclude)],
    )];
    let c1 = SolverOutput::new_conflict(conflicts.clone());
    let c2 = SolverOutput::new_conflict(conflicts.clone());
    let c3 = SolverOutput::new_conflict(conflicts);
    assert_eq!(SolverOutput::new_ok().merge(c1), c2.merge(SolverOutput::new_ok()));
    assert!(SolverOutput::new_ok().merge(SolverOutput::new_ok()).is_ok());
    assert!(c3.merge(SolverOutput::new_ok()).is_conflict());
}

/// Solving the same map twice yields identical conflict output.
#[test]
fn test_verdict_deterministic() {
    let entities = vec![entity(
        "pod",
        vec![mono("pod", "pod", EntityRuleType::Require)],
        vec![mono("pod", "pod", EntityRuleType::Exclude)],
    )];
    let map = EntityMap::build(&entities).unwrap();
    let s = get_solver("z3").unwrap();
    let a = s.solve(&map);
    let b = s.solve(&map);
    assert_eq!(a, b);
    let ring = get_solver("ring").unwrap();
    assert_eq!(ring.solve(&map), ring.solve(&map));
}

/// A self-require plus self-exclude is a conflict keyed at the original
/// name, and the reported set holds both a require and an exclude rule.
#[test]
fn test_self_require_exclude_conflict() {
    let entities = vec![entity(
        "pod",
        vec![mono("pod", "pod", EntityRuleType::Require)],
        vec![mono("pod", "pod", EntityRuleType::Exclude)],
    )];
    let map = EntityMap::build(&entities).unwrap();
    let s = get_solver("z3").unwrap();
    match s.solve(&map) {
        SolverOutput::Conflict(cm) => {
            assert_eq!(cm.len(), 1);
            assert_eq!(cm[0].0.as_str(), "pod");
            assert!(cm[0].1.iter().any(|r| r.is_require()));
            assert!(cm[0].1.iter().any(|r| r.is_exclude()));
        }
        SolverOutput::Sat => panic!("expected a conflict"),
    }
}

/// Under an environment that pins a self-excluding name, the probe fails.
#[test]
fn test_env_mode_self_exclude_conflict() {
    let entities = vec![entity(
        "pod",
        vec![],
        vec![mono("pod", "pod", EntityRuleType::Exclude)],
    )];
    let map = EntityMap::build(&entities).unwrap();
    let mut s = get_solver("z3").unwrap();
    s.set_envs(vec![Env {
        name: "prod".to_string(),
        labels: vec!["pod".to_string()],
        duplicate_names: vec![],
    }]);
    assert!(s.solve(&map).is_conflict());
}

/// With an empty environment list installed, every probe clears: no
/// environment ever pins a conflicting label.
#[test]
fn test_env_mode_no_envs_is_sat() {
    let entities = vec![entity(
        "pod",
        vec![],
        vec![mono("pod", "pod", EntityRuleType::Exclude)],
    )];
    let map = EntityMap::build(&entities).unwrap();
    let mut s = get_solver("z3").unwrap();
    s.set_envs(vec![]);
    assert!(s.solve(&map).is_ok());
}

/// The greedy recommendation is non-empty and every picked rule appears in
/// some conflict list.
#[test]
fn test_recommendation_coverage() {
    let r1 = mono("a", "b", EntityRuleType::Exclude);
    let r2 = mono("b", "a", EntityRuleType::Exclude);
    let conflicts = vec![
        ("a".to_string(), vec![r1.clone(), r2.clone()]),
        ("b".to_string(), vec![r2.clone()]),
    ];
    let picked = recommend_policy_all(&conflicts);
    assert!(!picked.is_empty());
    for r in &picked {
        assert!(conflicts.iter().any(|(_, l)| l.contains(r)));
    }
}

/// The critical-first policy picks only rules of critical entities, and
/// falls back to the greedy policy when no conflict is critical.
#[test]
fn test_recommendation_policies() {
    let r1 = mono("a", "b", EntityRuleType::Exclude);
    let conflicts = vec![("a".to_string(), vec![r1.clone()])];
    let crit = vec![Entity {
        name: EntityName("a".to_string()),
        requires: vec![],
        excludes: vec![],
        source: EntitySource::Unknown,
        priority: EntityPriority::Critical,
    }];
    let picked = recommend(&crit, &conflicts, RecommendPolicy::HighPriorityFirst);
    assert_eq!(picked.len(), 1);
    let nocrit = vec![entity("a", vec![], vec![])];
    let fallback = recommend(&nocrit, &conflicts, RecommendPolicy::HighPriorityFirst);
    assert_eq!(fallback.len(), 1);
}

/// The unknown engine flags rules whose targets are undefined.
#[test]
fn test_unknown_targets() {
    let entities = vec![entity(
        "pod",
        vec![mono("pod", "ghost-node", EntityRuleType::Require)],
        vec![],
    )];
    let map = EntityMap::build(&entities).unwrap();
    let s = get_solver("unknown").unwrap();
    match s.solve(&map) {
        SolverOutput::Conflict(cm) => {
            assert_eq!(cm.len(), 1);
            assert_eq!(cm[0].0.as_str(), "pod");
            assert_eq!(cm[0].1.len(), 1);
        }
        SolverOutput::Sat => panic!("expected a conflict"),
    }

    let defined = vec![
        entity("pod", vec![mono("pod", "node", EntityRuleType::Require)], vec![]),
        entity("node", vec![], vec![]),
    ];
    let map = EntityMap::build(&defined).unwrap();
    assert!(s.solve(&map).is_ok());
}

/// The splitter partitions rules by their topology metadata.
#[test]
fn test_split_by_metadata() {
    let mut meta_zone = EntityRuleMetadata::new(None, None, None);
    meta_zone.add_metadata("topology".to_string(), "zone".to_string());
    let rule_zone = EntityRule::mono(
        EntityName("a".to_string()),
        EntityName("b".to_string()),
        EntityRuleType::Require,
        EntityRuleSource::Unknown,
        Some(meta_zone),
    );
    let rule_default = mono("a", "c", EntityRuleType::Exclude);
    let entities = vec![entity("a", vec![rule_zone], vec![rule_default])];
    let groups = split_by_metadata(&entities, "topology", "node");
    assert_eq!(groups.len(), 2);
    let keys: Vec<&str> = groups.iter().map(|(k, _)| k.as_str()).collect();
    assert!(keys.contains(&"zone"));
    assert!(keys.contains(&"node"));
}

/// Group entities carry exactly their input entity's rules of the group
/// key, with source and priority kept, and a rule-less entity joins no
/// group.
#[test]
fn test_split_by_metadata_exact() {
    let rule_default = mono("a", "c", EntityRuleType::Exclude);
    let entities = vec![
        Entity {
            name: EntityName("a".to_string()),
            requires: vec![],
            excludes: vec![rule_default.clone()],
            source: EntitySource::File("a.yaml".to_string()),
            priority: EntityPriority::Critical,
        },
        entity("idle", vec![], vec![]),
    ];
    let groups = split_by_metadata(&entities, "topology", "node");
    assert_eq!(groups.len(), 1);
    assert_eq!(groups[0].0, "node");
    assert_eq!(groups[0].1.len(), 1);
    let ge = &groups[0].1[0];
    assert_eq!(ge.name.0, "a");
    assert_eq!(ge.source, EntitySource::File("a.yaml".to_string()));
    assert_eq!(ge.priority, EntityPriority::Critical);
    assert!(ge.requires.is_empty());
    assert_eq!(ge.excludes, vec![rule_default]);
}

/// Loose rules regroup under their source names, split by type.
#[test]
fn test_rule_set_to_entity_set() {
    let rules = vec![
        mono("a", "b", EntityRuleType::Require),
        mono("a", "c", EntityRuleType::Exclude),
        mono("b", "a", EntityRuleType::Require),
    ];
    let entities = rule_set_to_entity_set(rules);
    assert_eq!(entities.len(), 2);
    for e in &entities {
        if e.name.0 == "a" {
            assert_eq!(e.requires.len(), 1);
            assert_eq!(e.excludes.len(), 1);
        } else {
            assert_eq!(e.name.0.as_str(), "b");
            assert_eq!(e.requires.len(), 1);
        }
    }
}

/// Decimal printing appends plain digit notation.
#[test]
fn test_append_usize() {
    let mut s = String::from("n=");
    deployfix::numtext::append_usize(&mut s, 4096);
    assert_eq!(s, "n=4096");
    let mut z = String::new();
    deployfix::numtext::append_usize(&mut z, 0);
    assert_eq!(z, "0");
}

/// Decimal parsing accepts plain digit strings and rejects the rest.
#[test]
fn test_parse_usize() {
    assert_eq!(parse_usize("0"), Some(0));
    assert_eq!(parse_usize("1234"), Some(1234));
    assert_eq!(parse_usize(""), None);
    assert_eq!(parse_usize("12a"), None);
    assert_eq!(parse_usize("99999999999999999999999999"), None);
}

/// Rule metadata answers the byte range when index and len are present.
#[test]
fn test_rule_range() {
    let mut md = EntityRuleMetadata::new(Some("f.yaml".to_string()), Some(3), None);
    md.add_metadata("index".to_string(), "10".to_string());
    md.add_metadata("len".to_string(), "5".to_string());
    let r = EntityRule::mono(
        EntityName("a".to_string()),
        EntityName("b".to_string()),
        EntityRuleType::Require,
        EntityRuleSource::new("f.yaml", 3),
        Some(md),
    );
    assert_eq!(r.range(), Some((10, 15)));
    assert_eq!(r.file(), Some("f.yaml"));
    assert_eq!(r.line(), Some(3));
    assert_eq!(r.meta_file(), Some("f.yaml"));
    assert_eq!(r.meta_line(), Some(3));
}

/// Topology keys parse from their three names only.
#[test]
fn test_topology_keys() {
    assert_eq!(
        EntityRuleTopologyKey::from_key("zone"),
        Some(EntityRuleTopologyKey::Zone)
    );
    assert_eq!(
        EntityRuleTopologyKey::from_key("rack"),
        Some(EntityRuleTopologyKey::Rack)
    );
    assert_eq!(
        EntityRuleTopologyKey::from_key("node"),
        Some(EntityRuleTopologyKey::Node)
    );
    assert_eq!(EntityRuleTopologyKey::from_key("planet"), None);
    assert_eq!(EntityRuleTopologyKey::Zone.as_str(), "zone");
}

/// A multi-require keeps its target set sorted and duplicate-free.
#[test]
fn test_multi_rule_canonical() {
    let r = EntityRule::multi(
        EntityName("a".to_string()),
        vec![
            EntityName("z".to_string()),
            EntityName("b".to_string()),
            EntityName("z".to_string()),
        ],
        EntityRuleType::Require,
        EntityRuleSource::Unknown,
        None,
    );
    let targets = r.targets();
    assert_eq!(targets.len(), 2);
    assert_eq!(targets[0].0.as_str(), "b");
    assert_eq!(targets[1].0.as_str(), "z");
    assert!(r.is_multi());
    assert!(r.is_in_target("z"));
    assert!(!r.is_in_target("a"));
}

/// The conflict accessors expose keys and rule lists.
#[test]
fn test_verdict_accessors() {
    let entities = vec![entity(
        "pod",
        vec![mono("pod", "pod", EntityRuleType::Require)],
        vec![mono("pod", "pod", EntityRuleType::Exclude)],
    )];
    let map = EntityMap::build(&entities).unwrap();
    let s = get_solver("z3").unwrap();
    let out = s.solve(&map);
    assert!(out.is_conflict());
    let names = out.get_unscheduable().unwrap();
    assert_eq!(names.len(), 1);
    assert_eq!(names[0].as_str(), "pod");
    let rules = out.get_conflict_rules().unwrap();
    assert_eq!(rules.len(), 1);
    assert!(!rules[0].1.is_empty());
}
