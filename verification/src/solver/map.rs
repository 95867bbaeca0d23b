//! The Entity Map builder: validates the entity collection, rewrites
//! self-conflicting entities into paired siblings so that the rules can be
//! encoded as boolean constraints, and collects the universe of referenced
//! names.

use vstd::prelude::*;

use crate::model::entity::{Entity, EntityName, EntityView};
use crate::model::rule::{
    canon_names, canon_names_vec, canon_rules, canon_rules_vec, dv_names, dv_rules, EntityRule,
    RuleView,
};
use crate::order::{eq_str, str_cmp};

verus! {

/// The views of a vector of entities.
pub open spec fn dv_entities(s: Seq<Entity>) -> Seq<EntityView> {
    Seq::new(s.len(), |i: int| s[i]@)
}

/// The views of a vector of strings.
pub open spec fn dv_strings(s: Seq<String>) -> Seq<Seq<char>> {
    Seq::new(s.len(), |i: int| s[i]@)
}

/// Viewing distributes over concatenation of name vectors.
pub proof fn lemma_dv_names_concat(a: Seq<EntityName>, b: Seq<EntityName>)
    ensures
        dv_names(a + b) == dv_names(a) + dv_names(b),
{
    assert(dv_names(a + b) =~= dv_names(a) + dv_names(b));
}

/// The name of the first split sibling of `n`.
pub open spec fn sib1(n: Seq<char>) -> Seq<char> {
    n + "_1"@
}

/// The name of the second split sibling of `n`.
pub open spec fn sib2(n: Seq<char>) -> Seq<char> {
    n + "_2"@
}

pub fn sibling_name(n: &str, second: bool) -> (r: String)
    ensures
        r@ == if second {
            sib2(n@)
        } else {
            sib1(n@)
        },
{
    let mut s = n.to_owned();
    if second {
        s.append("_2");
    } else {
        s.append("_1");
    }
    s
}

/// Whether one of the entity's exclude rules targets the entity itself.
pub open spec fn is_self_excluding(e: EntityView) -> bool {
    exists|i: int| 0 <= i < e.excludes.len() && (#[trigger] e.excludes[i]).has_target(e.name)
}

fn entity_self_excluding(e: &Entity) -> (r: bool)
    ensures
        r == is_self_excluding(e@),
{
    let mut i: usize = 0;
    while i < e.excludes.len()
        invariant
            0 <= i <= e.excludes@.len(),
            e@.excludes.len() == e.excludes@.len(),
            forall|j: int| 0 <= j < i ==> !(#[trigger] e@.excludes[j]).has_target(e@.name),
        decreases e.excludes@.len() - i,
    {
        proof {
            assert(e@.excludes[i as int] == e.excludes@[i as int]@);
        }
        if e.excludes[i].is_in_target(e.name.0.as_str()) {
            return true;
        }
        i = i + 1;
    }
    false
}

// ------------------------------------------------------------------
// Per-rule rewrites
// ------------------------------------------------------------------
/// The target list with every occurrence of `from` renamed to `to`.
pub open spec fn rename_targets(ts: Seq<Seq<char>>, from: Seq<char>, to: Seq<char>) -> Seq<
    Seq<char>,
> {
    ts.map_values(
        |t: Seq<char>|
            if t == from {
                to
            } else {
                t
            },
    )
}

/// Renames every occurrence of `from` among a rule's targets to `to`.
pub open spec fn rename_rule(r: RuleView, from: Seq<char>, to: Seq<char>) -> RuleView {
    if r.multi {
        RuleView { targets: canon_names(rename_targets(r.targets, from, to)), ..r }
    } else {
        if r.targets[0] == from {
            RuleView { targets: seq![to], ..r }
        } else {
            r
        }
    }
}

/// The family a rule is force-split into: a rule whose targets mention
/// `from` becomes one copy per sibling, each with `from` renamed to that
/// sibling.
pub open spec fn force_split_rule(r: RuleView, from: Seq<char>, to1: Seq<char>, to2: Seq<char>)
    -> Seq<RuleView> {
    if r.has_target(from) {
        seq![rename_rule(r, from, to1), rename_rule(r, from, to2)]
    } else {
        seq![r]
    }
}

/// Whether any target of the rule is a split name.
pub open spec fn mentions_split(r: RuleView, splits: Seq<Seq<char>>) -> bool {
    exists|i: int| 0 <= i < r.targets.len() && splits.contains(#[trigger] r.targets[i])
}

/// Rewrites a require rule of an unrelated entity: a split target expands
/// to the disjunction of both siblings.
pub open spec fn split_require_rule(r: RuleView, splits: Seq<Seq<char>>) -> Seq<RuleView> {
    if !mentions_split(r, splits) {
        seq![r]
    } else if r.multi {
        seq![
            RuleView {
                targets: canon_names(expand_targets(r.targets, splits)),
                ..r
            },
        ]
    } else {
        seq![
            RuleView {
                multi: true,
                targets: canon_names(seq![sib1(r.targets[0]), sib2(r.targets[0])]),
                ..r
            },
        ]
    }
}

/// Every split target doubled into its two siblings, others kept.
pub open spec fn expand_targets(ts: Seq<Seq<char>>, splits: Seq<Seq<char>>) -> Seq<Seq<char>>
    decreases ts.len(),
{
    if ts.len() == 0 {
        Seq::empty()
    } else {
        let head = if splits.contains(ts[0]) {
            seq![sib1(ts[0]), sib2(ts[0])]
        } else {
            seq![ts[0]]
        };
        head + expand_targets(ts.drop_first(), splits)
    }
}

/// Rewrites an exclude rule of an unrelated entity: a split mono target
/// becomes two mono rules; a multi rule containing split targets becomes two
/// multi rules, one per sibling side.
pub open spec fn split_exclude_rule(r: RuleView, splits: Seq<Seq<char>>) -> Seq<RuleView> {
    if !mentions_split(r, splits) {
        seq![r]
    } else {
        seq![sibling_rename(r, splits, false), sibling_rename(r, splits, true)]
    }
}

// ------------------------------------------------------------------
// Executable rewrites
// ------------------------------------------------------------------
fn clone_opt_meta(m: &Option<crate::model::rule::EntityRuleMetadata>) -> (r: Option<
    crate::model::rule::EntityRuleMetadata,
>)
    ensures
        (match r {
            Some(x) => Some(x@),
            None => None,
        }) == (match m {
            Some(x) => Some(x@),
            None => None::<crate::model::rule::MetadataView>,
        }),
{
    match m {
        Some(x) => Some(x.clone()),
        None => None,
    }
}

/// Builds the rule with every target equal to `from` renamed to `to`.
fn rename_rule_exec(r: &EntityRule, from: &str, to: &str) -> (out: EntityRule)
    ensures
        out@ == rename_rule(r@, from@, to@),
{
    match r {
        EntityRule::Mono { source, target, rtype, rule_source, metadata } => {
            proof {
                assert(r@.targets[0] == target@);
            }
            if eq_str(target.0.as_str(), from) {
                let out = EntityRule::mono(
                    source.clone(),
                    EntityName(to.to_owned()),
                    *rtype,
                    rule_source.clone(),
                    clone_opt_meta(metadata),
                );
                proof {
                    assert(out@ =~= rename_rule(r@, from@, to@));
                }
                out
            } else {
                let out = r.clone();
                proof {
                    assert(out@ =~= rename_rule(r@, from@, to@));
                }
                out
            }
        },
        EntityRule::Multi { source, targets, rtype, rule_source, metadata } => {
            let mut mapped: Vec<EntityName> = Vec::new();
            let mut i: usize = 0;
            proof {
                assert(dv_names(mapped@) =~= rename_targets(r@.targets, from@, to@).take(0));
            }
            while i < targets.len()
                invariant
                    0 <= i <= targets@.len(),
                    r@.targets == dv_names(targets@),
                    r@.targets.len() == targets@.len(),
                    dv_names(mapped@) == rename_targets(r@.targets, from@, to@).take(i as int),
                    mapped@.len() == i,
                decreases targets@.len() - i,
            {
                proof {
                    assert(r@.targets[i as int] == targets@[i as int]@);
                    assert(rename_targets(r@.targets, from@, to@)[i as int] == (if r@.targets[
                        i as int
                    ] == from@ {
                        to@
                    } else {
                        r@.targets[i as int]
                    }));
                }
                if eq_str(targets[i].0.as_str(), from) {
                    mapped.push(EntityName(to.to_owned()));
                } else {
                    mapped.push(targets[i].clone());
                }
                proof {
                    assert(dv_names(mapped@) =~= rename_targets(r@.targets, from@, to@).take(
                        i as int + 1,
                    ));
                }
                i = i + 1;
            }
            proof {
                assert(rename_targets(r@.targets, from@, to@).take(i as int) =~= rename_targets(
                    r@.targets,
                    from@,
                    to@,
                ));
            }
            let out = EntityRule::multi(
                source.clone(),
                mapped,
                *rtype,
                rule_source.clone(),
                clone_opt_meta(metadata),
            );
            proof {
                assert(out@ =~= rename_rule(r@, from@, to@));
            }
            out
        },
    }
}

/// The flattened family of each rule under force-splitting.
pub open spec fn force_split_seq(
    s: Seq<RuleView>,
    from: Seq<char>,
    to1: Seq<char>,
    to2: Seq<char>,
) -> Seq<RuleView>
    decreases s.len(),
{
    if s.len() == 0 {
        Seq::empty()
    } else {
        force_split_rule(s[0], from, to1, to2) + force_split_seq(s.drop_first(), from, to1, to2)
    }
}

/// The renamed copy of every rule in the list.
pub open spec fn rename_seq(s: Seq<RuleView>, from: Seq<char>, to: Seq<char>) -> Seq<RuleView> {
    s.map_values(|r: RuleView| rename_rule(r, from, to))
}

/// The flattened rewrite of every require rule.
pub open spec fn split_require_seq(s: Seq<RuleView>, splits: Seq<Seq<char>>) -> Seq<RuleView>
    decreases s.len(),
{
    if s.len() == 0 {
        Seq::empty()
    } else {
        split_require_rule(s[0], splits) + split_require_seq(s.drop_first(), splits)
    }
}

/// The flattened rewrite of every exclude rule.
pub open spec fn split_exclude_seq(s: Seq<RuleView>, splits: Seq<Seq<char>>) -> Seq<RuleView>
    decreases s.len(),
{
    if s.len() == 0 {
        Seq::empty()
    } else {
        split_exclude_rule(s[0], splits) + split_exclude_seq(s.drop_first(), splits)
    }
}

fn rename_set_vec(rules: &Vec<EntityRule>, from: &str, to: &str) -> (out: Vec<EntityRule>)
    ensures
        dv_rules(out@) == canon_rules(rename_seq(dv_rules(rules@), from@, to@)),
{
    let ghost orig = dv_rules(rules@);
    let ghost target = rename_seq(orig, from@, to@);
    let mut acc: Vec<EntityRule> = Vec::new();
    let mut i: usize = 0;
    proof {
        assert(dv_rules(acc@) =~= target.take(0));
    }
    while i < rules.len()
        invariant
            0 <= i <= rules@.len(),
            orig == dv_rules(rules@),
            orig.len() == rules@.len(),
            target == rename_seq(orig, from@, to@),
            target.len() == orig.len(),
            acc@.len() == i,
            dv_rules(acc@) == target.take(i as int),
        decreases rules@.len() - i,
    {
        proof {
            assert(orig[i as int] == rules@[i as int]@);
            assert(target[i as int] == rename_rule(orig[i as int], from@, to@));
        }
        let nr = rename_rule_exec(&rules[i], from, to);
        acc.push(nr);
        proof {
            assert(dv_rules(acc@) =~= target.take(i as int + 1));
        }
        i = i + 1;
    }
    proof {
        assert(target.take(i as int) =~= target);
    }
    canon_rules_vec(acc)
}

fn force_split_vec(rules: &Vec<EntityRule>, from: &str, to1: &str, to2: &str) -> (out: Vec<
    EntityRule,
>)
    ensures
        dv_rules(out@) == canon_rules(force_split_seq(dv_rules(rules@), from@, to1@, to2@)),
{
    let ghost orig = dv_rules(rules@);
    let ghost target = force_split_seq(orig, from@, to1@, to2@);
    let mut acc: Vec<EntityRule> = Vec::new();
    let mut i: usize = 0;
    let ghost done = Seq::<RuleView>::empty();
    proof {
        assert(dv_rules(acc@) =~= done);
        assert(orig.skip(0) =~= orig);
        assert(done + force_split_seq(orig, from@, to1@, to2@) =~= force_split_seq(
            orig,
            from@,
            to1@,
            to2@,
        ));
    }
    while i < rules.len()
        invariant
            0 <= i <= rules@.len(),
            orig == dv_rules(rules@),
            orig.len() == rules@.len(),
            dv_rules(acc@) == done,
            target == force_split_seq(orig, from@, to1@, to2@),
            target == done + force_split_seq(orig.skip(i as int), from@, to1@, to2@),
        decreases rules@.len() - i,
    {
        proof {
            assert(orig.skip(i as int)[0] == orig[i as int]);
            assert(orig[i as int] == rules@[i as int]@);
            assert(orig.skip(i as int).drop_first() =~= orig.skip(i as int + 1));
        }
        let ghost prevdone = done;
        if rules[i].is_in_target(from) {
            let r1 = rename_rule_exec(&rules[i], from, to1);
            let r2 = rename_rule_exec(&rules[i], from, to2);
            acc.push(r1);
            acc.push(r2);
            proof {
                done = prevdone + force_split_rule(orig[i as int], from@, to1@, to2@);
                assert(dv_rules(acc@) =~= done);
            }
        } else {
            let r0 = rules[i].clone();
            acc.push(r0);
            proof {
                done = prevdone + force_split_rule(orig[i as int], from@, to1@, to2@);
                assert(force_split_rule(orig[i as int], from@, to1@, to2@) =~= seq![
                    orig[i as int],
                ]);
                assert(dv_rules(acc@) =~= done);
            }
        }
        proof {
            assert(prevdone + (force_split_rule(orig[i as int], from@, to1@, to2@)
                + force_split_seq(orig.skip(i as int + 1), from@, to1@, to2@)) =~= done
                + force_split_seq(orig.skip(i as int + 1), from@, to1@, to2@));
        }
        i = i + 1;
    }
    proof {
        assert(orig.skip(i as int) =~= Seq::<RuleView>::empty());
        assert(done + force_split_seq(orig.skip(i as int), from@, to1@, to2@) =~= done);
    }
    canon_rules_vec(acc)
}

pub fn names_vec_contains(v: &Vec<String>, x: &str) -> (r: bool)
    ensures
        r == dv_strings(v@).contains(x@),
{
    let mut i: usize = 0;
    while i < v.len()
        invariant
            0 <= i <= v@.len(),
            forall|j: int| 0 <= j < i ==> dv_strings(v@)[j] != x@,
        decreases v@.len() - i,
    {
        proof {
            assert(dv_strings(v@)[i as int] == v@[i as int]@);
        }
        if eq_str(v[i].as_str(), x) {
            proof {
                assert(dv_strings(v@)[i as int] == x@);
            }
            return true;
        }
        i = i + 1;
    }
    proof {
        if dv_strings(v@).contains(x@) {
            let j = choose|j: int| 0 <= j < dv_strings(v@).len() && dv_strings(v@)[j] == x@;
            assert(false);
        }
    }
    false
}

/// Whether any target of the rule lies in the split set.
fn rule_mentions_split(r: &EntityRule, splits: &Vec<String>) -> (b: bool)
    ensures
        b == mentions_split(r@, dv_strings(splits@)),
{
    let targets = r.targets();
    let mut i: usize = 0;
    while i < targets.len()
        invariant
            0 <= i <= targets@.len(),
            dv_names(targets@) == r@.targets,
            r@.targets.len() == targets@.len(),
            forall|j: int|
                0 <= j < i ==> !dv_strings(splits@).contains(#[trigger] r@.targets[j]),
        decreases targets@.len() - i,
    {
        proof {
            assert(r@.targets[i as int] == targets@[i as int]@);
        }
        if names_vec_contains(splits, targets[i].0.as_str()) {
            return true;
        }
        i = i + 1;
    }
    false
}

/// Builds the rule with every split target renamed to its chosen sibling.
fn sibling_rename_exec(r: &EntityRule, splits: &Vec<String>, second: bool) -> (out: EntityRule)
    ensures
        out@ == sibling_rename(r@, dv_strings(splits@), second),
{
    let ghost sv = dv_strings(splits@);
    match r {
        EntityRule::Mono { source, target, rtype, rule_source, metadata } => {
            proof {
                assert(r@.targets[0] == target@);
            }
            if names_vec_contains(splits, target.0.as_str()) {
                let nt = sibling_name(target.0.as_str(), second);
                let out = EntityRule::mono(
                    source.clone(),
                    EntityName(nt),
                    *rtype,
                    rule_source.clone(),
                    clone_opt_meta(metadata),
                );
                proof {
                    assert(out@ =~= sibling_rename(r@, sv, second));
                }
                out
            } else {
                let out = r.clone();
                proof {
                    assert(out@ =~= sibling_rename(r@, sv, second));
                }
                out
            }
        },
        EntityRule::Multi { source, targets, rtype, rule_source, metadata } => {
            let ghost f = |t: Seq<char>|
                if sv.contains(t) {
                    if second {
                        sib2(t)
                    } else {
                        sib1(t)
                    }
                } else {
                    t
                };
            let mut mapped: Vec<EntityName> = Vec::new();
            let mut i: usize = 0;
            proof {
                assert(dv_names(mapped@) =~= r@.targets.map_values(f).take(0));
            }
            while i < targets.len()
                invariant
                    0 <= i <= targets@.len(),
                    r@.targets == dv_names(targets@),
                    r@.targets.len() == targets@.len(),
                    dv_names(mapped@) == r@.targets.map_values(f).take(i as int),
                    mapped@.len() == i,
                    sv == dv_strings(splits@),
                    f == (|t: Seq<char>|
                        if sv.contains(t) {
                            if second {
                                sib2(t)
                            } else {
                                sib1(t)
                            }
                        } else {
                            t
                        }),
                decreases targets@.len() - i,
            {
                proof {
                    assert(r@.targets[i as int] == targets@[i as int]@);
                }
                if names_vec_contains(splits, targets[i].0.as_str()) {
                    mapped.push(EntityName(sibling_name(targets[i].0.as_str(), second)));
                } else {
                    mapped.push(targets[i].clone());
                }
                proof {
                    assert(r@.targets.map_values(f)[i as int] == f(r@.targets[i as int]));
                    assert(dv_names(mapped@) =~= r@.targets.map_values(f).take(i as int + 1));
                }
                i = i + 1;
            }
            proof {
                assert(r@.targets.map_values(f).take(i as int) =~= r@.targets.map_values(f));
            }
            let out = EntityRule::multi(
                source.clone(),
                mapped,
                *rtype,
                rule_source.clone(),
                clone_opt_meta(metadata),
            );
            proof {
                assert(out@ =~= sibling_rename(r@, sv, second));
            }
            out
        },
    }
}

fn split_require_vec(rules: &Vec<EntityRule>, splits: &Vec<String>) -> (out: Vec<EntityRule>)
    ensures
        dv_rules(out@) == canon_rules(split_require_seq(dv_rules(rules@), dv_strings(splits@))),
{
    let ghost sv = dv_strings(splits@);
    let ghost orig = dv_rules(rules@);
    let ghost target = split_require_seq(orig, sv);
    let mut acc: Vec<EntityRule> = Vec::new();
    let mut i: usize = 0;
    let ghost done = Seq::<RuleView>::empty();
    proof {
        assert(dv_rules(acc@) =~= done);
        assert(orig.skip(0) =~= orig);
        assert(done + split_require_seq(orig, sv) =~= split_require_seq(orig, sv));
    }
    while i < rules.len()
        invariant
            0 <= i <= rules@.len(),
            orig == dv_rules(rules@),
            orig.len() == rules@.len(),
            sv == dv_strings(splits@),
            dv_rules(acc@) == done,
            target == split_require_seq(orig, sv),
            target == done + split_require_seq(orig.skip(i as int), sv),
        decreases rules@.len() - i,
    {
        proof {
            assert(orig.skip(i as int)[0] == orig[i as int]);
            assert(orig[i as int] == rules@[i as int]@);
            assert(orig.skip(i as int).drop_first() =~= orig.skip(i as int + 1));
        }
        let ghost prevdone = done;
        let r = &rules[i];
        if !rule_mentions_split(r, splits) {
            let r0 = r.clone();
            acc.push(r0);
            proof {
                done = prevdone + split_require_rule(orig[i as int], sv);
                assert(split_require_rule(orig[i as int], sv) =~= seq![orig[i as int]]);
                assert(dv_rules(acc@) =~= done);
            }
        } else if r.is_multi() {
            let nr = expand_rule_exec(r, splits);
            acc.push(nr);
            proof {
                done = prevdone + split_require_rule(orig[i as int], sv);
                assert(dv_rules(acc@) =~= done);
            }
        } else {
            let nr = promote_mono_exec(r);
            acc.push(nr);
            proof {
                done = prevdone + split_require_rule(orig[i as int], sv);
                assert(dv_rules(acc@) =~= done);
            }
        }
        proof {
            assert(prevdone + (split_require_rule(orig[i as int], sv) + split_require_seq(
                orig.skip(i as int + 1),
                sv,
            )) =~= done + split_require_seq(orig.skip(i as int + 1), sv));
        }
        i = i + 1;
    }
    proof {
        assert(orig.skip(i as int) =~= Seq::<RuleView>::empty());
        assert(done + split_require_seq(orig.skip(i as int), sv) =~= done);
    }
    canon_rules_vec(acc)
}

/// Builds the multi rule with every split target expanded to both siblings.
fn expand_rule_exec(r: &EntityRule, splits: &Vec<String>) -> (out: EntityRule)
    requires
        r@.multi,
        mentions_split(r@, dv_strings(splits@)),
    ensures
        out@ == (RuleView {
            targets: canon_names(expand_targets(r@.targets, dv_strings(splits@))),
            ..r@
        }),
{
    let ghost sv = dv_strings(splits@);
    match r {
        EntityRule::Multi { source, targets, rtype, rule_source, metadata } => {
            let mut mapped: Vec<EntityName> = Vec::new();
            let mut i: usize = 0;
            let ghost done = Seq::<Seq<char>>::empty();
            proof {
                assert(dv_names(mapped@) =~= done);
                assert(r@.targets.skip(0) =~= r@.targets);
                assert(done + expand_targets(r@.targets, sv) =~= expand_targets(r@.targets, sv));
            }
            while i < targets.len()
                invariant
                    0 <= i <= targets@.len(),
                    r@.targets == dv_names(targets@),
                    r@.targets.len() == targets@.len(),
                    sv == dv_strings(splits@),
                    dv_names(mapped@) == done,
                    expand_targets(r@.targets, sv) == done + expand_targets(
                        r@.targets.skip(i as int),
                        sv,
                    ),
                decreases targets@.len() - i,
            {
                proof {
                    assert(r@.targets.skip(i as int)[0] == r@.targets[i as int]);
                    assert(r@.targets[i as int] == targets@[i as int]@);
                    assert(r@.targets.skip(i as int).drop_first() =~= r@.targets.skip(
                        i as int + 1,
                    ));
                }
                let ghost prevdone = done;
                if names_vec_contains(splits, targets[i].0.as_str()) {
                    mapped.push(EntityName(sibling_name(targets[i].0.as_str(), false)));
                    mapped.push(EntityName(sibling_name(targets[i].0.as_str(), true)));
                    proof {
                        done = prevdone + seq![
                            sib1(r@.targets[i as int]),
                            sib2(r@.targets[i as int]),
                        ];
                        assert(dv_names(mapped@) =~= done);
                        assert(prevdone + (seq![
                            sib1(r@.targets[i as int]),
                            sib2(r@.targets[i as int]),
                        ] + expand_targets(r@.targets.skip(i as int + 1), sv)) =~= done
                            + expand_targets(r@.targets.skip(i as int + 1), sv));
                    }
                } else {
                    mapped.push(targets[i].clone());
                    proof {
                        done = prevdone + seq![r@.targets[i as int]];
                        assert(dv_names(mapped@) =~= done);
                        assert(prevdone + (seq![r@.targets[i as int]] + expand_targets(
                            r@.targets.skip(i as int + 1),
                            sv,
                        )) =~= done + expand_targets(r@.targets.skip(i as int + 1), sv));
                    }
                }
                i = i + 1;
            }
            proof {
                assert(r@.targets.skip(i as int) =~= Seq::<Seq<char>>::empty());
                assert(done + expand_targets(r@.targets.skip(i as int), sv) =~= done);
            }
            let out = EntityRule::multi(
                source.clone(),
                mapped,
                *rtype,
                rule_source.clone(),
                clone_opt_meta(metadata),
            );
            proof {
                assert(out@ =~= (RuleView {
                    targets: canon_names(expand_targets(r@.targets, sv)),
                    ..r@
                }));
            }
            out
        },
        EntityRule::Mono { .. } => {
            proof {
                assert(false);
            }
            r.clone()
        },
    }
}

/// Builds the multi rule that replaces a split mono require target by the
/// disjunction of its two siblings.
fn promote_mono_exec(r: &EntityRule) -> (out: EntityRule)
    requires
        !r@.multi,
    ensures
        out@ == (RuleView {
            multi: true,
            targets: canon_names(seq![sib1(r@.targets[0]), sib2(r@.targets[0])]),
            ..r@
        }),
{
    match r {
        EntityRule::Mono { source, target, rtype, rule_source, metadata } => {
            proof {
                assert(r@.targets[0] == target@);
            }
            let mut ts: Vec<EntityName> = Vec::new();
            ts.push(EntityName(sibling_name(target.0.as_str(), false)));
            ts.push(EntityName(sibling_name(target.0.as_str(), true)));
            proof {
                assert(dv_names(ts@) =~= seq![sib1(r@.targets[0]), sib2(r@.targets[0])]);
            }
            let out = EntityRule::multi(
                source.clone(),
                ts,
                *rtype,
                rule_source.clone(),
                clone_opt_meta(metadata),
            );
            proof {
                assert(out@ =~= (RuleView {
                    multi: true,
                    targets: canon_names(seq![sib1(r@.targets[0]), sib2(r@.targets[0])]),
                    ..r@
                }));
            }
            out
        },
        EntityRule::Multi { .. } => {
            proof {
                assert(false);
            }
            r.clone()
        },
    }
}

fn split_exclude_vec(rules: &Vec<EntityRule>, splits: &Vec<String>) -> (out: Vec<EntityRule>)
    ensures
        dv_rules(out@) == canon_rules(split_exclude_seq(dv_rules(rules@), dv_strings(splits@))),
{
    let ghost sv = dv_strings(splits@);
    let ghost orig = dv_rules(rules@);
    let ghost target = split_exclude_seq(orig, sv);
    let mut acc: Vec<EntityRule> = Vec::new();
    let mut i: usize = 0;
    let ghost done = Seq::<RuleView>::empty();
    proof {
        assert(dv_rules(acc@) =~= done);
        assert(orig.skip(0) =~= orig);
        assert(done + split_exclude_seq(orig, sv) =~= split_exclude_seq(orig, sv));
    }
    while i < rules.len()
        invariant
            0 <= i <= rules@.len(),
            orig == dv_rules(rules@),
            orig.len() == rules@.len(),
            sv == dv_strings(splits@),
            dv_rules(acc@) == done,
            target == split_exclude_seq(orig, sv),
            target == done + split_exclude_seq(orig.skip(i as int), sv),
        decreases rules@.len() - i,
    {
        proof {
            assert(orig.skip(i as int)[0] == orig[i as int]);
            assert(orig[i as int] == rules@[i as int]@);
            assert(orig.skip(i as int).drop_first() =~= orig.skip(i as int + 1));
        }
        let ghost prevdone = done;
        let r = &rules[i];
        if !rule_mentions_split(r, splits) {
            let r0 = r.clone();
            acc.push(r0);
            proof {
                done = prevdone + split_exclude_rule(orig[i as int], sv);
                assert(split_exclude_rule(orig[i as int], sv) =~= seq![orig[i as int]]);
                assert(dv_rules(acc@) =~= done);
            }
        } else {
            let r1 = sibling_rename_exec(r, splits, false);
            let r2 = sibling_rename_exec(r, splits, true);
            acc.push(r1);
            acc.push(r2);
            proof {
                done = prevdone + split_exclude_rule(orig[i as int], sv);
                assert(dv_rules(acc@) =~= done);
            }
        }
        proof {
            assert(prevdone + (split_exclude_rule(orig[i as int], sv) + split_exclude_seq(
                orig.skip(i as int + 1),
                sv,
            )) =~= done + split_exclude_seq(orig.skip(i as int + 1), sv));
        }
        i = i + 1;
    }
    proof {
        assert(orig.skip(i as int) =~= Seq::<RuleView>::empty());
        assert(done + split_exclude_seq(orig.skip(i as int), sv) =~= done);
    }
    canon_rules_vec(acc)
}

// ------------------------------------------------------------------
// Whole-map preprocessing
// ------------------------------------------------------------------
/// The entity with both rule lists in canonical form.
pub open spec fn canon_entity(e: EntityView) -> EntityView {
    EntityView { requires: canon_rules(e.requires), excludes: canon_rules(e.excludes), ..e }
}

pub open spec fn canon_entities(es: Seq<EntityView>) -> Seq<EntityView> {
    es.map_values(|e: EntityView| canon_entity(e))
}

/// What an entity becomes in the splitting pass: a self-excluding entity is
/// replaced by its two siblings; requires are force-split, excludes renamed
/// to the respective other sibling.
pub open spec fn phase1_of(e: EntityView) -> Seq<EntityView> {
    if !is_self_excluding(e) {
        seq![e]
    } else {
        seq![
            EntityView {
                name: sib1(e.name),
                requires: canon_rules(
                    force_split_seq(e.requires, e.name, sib1(e.name), sib2(e.name)),
                ),
                excludes: canon_rules(rename_seq(e.excludes, e.name, sib2(e.name))),
                ..e
            },
            EntityView {
                name: sib2(e.name),
                requires: canon_rules(
                    force_split_seq(e.requires, e.name, sib1(e.name), sib2(e.name)),
                ),
                excludes: canon_rules(rename_seq(e.excludes, e.name, sib1(e.name))),
                ..e
            },
        ]
    }
}

pub open spec fn phase1(es: Seq<EntityView>) -> Seq<EntityView>
    decreases es.len(),
{
    if es.len() == 0 {
        Seq::empty()
    } else {
        phase1_of(es[0]) + phase1(es.drop_first())
    }
}

/// The names of the self-excluding entities, in input order.
pub open spec fn splits_raw(es: Seq<EntityView>) -> Seq<Seq<char>>
    decreases es.len(),
{
    if es.len() == 0 {
        Seq::empty()
    } else {
        (if is_self_excluding(es[0]) {
            seq![es[0].name]
        } else {
            Seq::empty()
        }) + splits_raw(es.drop_first())
    }
}

/// The rewrite pass over every entity, expanding references to split names.
pub open spec fn phase2_entity(e: EntityView, splits: Seq<Seq<char>>) -> EntityView {
    EntityView {
        requires: canon_rules(split_require_seq(e.requires, splits)),
        excludes: canon_rules(split_exclude_seq(e.excludes, splits)),
        ..e
    }
}

pub open spec fn phase2(es: Seq<EntityView>, splits: Seq<Seq<char>>) -> Seq<EntityView> {
    es.map_values(|e: EntityView| phase2_entity(e, splits))
}

/// The full preprocessing: split self-excluding entities, then rewrite every
/// reference to a split name.
pub open spec fn spec_preprocess(es: Seq<EntityView>) -> Seq<EntityView> {
    phase2(phase1(es), canon_names(splits_raw(es)))
}

/// The targets of all rules in a list, concatenated.
pub open spec fn targets_of_rules(rs: Seq<RuleView>) -> Seq<Seq<char>>
    decreases rs.len(),
{
    if rs.len() == 0 {
        Seq::empty()
    } else {
        rs[0].targets + targets_of_rules(rs.drop_first())
    }
}


/// Target collection distributes over concatenation of rule lists.
pub proof fn lemma_targets_of_rules_concat(a: Seq<RuleView>, b: Seq<RuleView>)
    ensures
        targets_of_rules(a + b) == targets_of_rules(a) + targets_of_rules(b),
    decreases a.len(),
{
    if a.len() == 0 {
        assert(a + b =~= b);
        assert(targets_of_rules(a) =~= Seq::<Seq<char>>::empty());
        assert(targets_of_rules(a) + targets_of_rules(b) =~= targets_of_rules(b));
    } else {
        assert((a + b)[0] == a[0]);
        assert((a + b).drop_first() =~= a.drop_first() + b);
        lemma_targets_of_rules_concat(a.drop_first(), b);
        assert(targets_of_rules(a + b) == a[0].targets + (targets_of_rules(a.drop_first())
            + targets_of_rules(b)));
        assert(a[0].targets + (targets_of_rules(a.drop_first()) + targets_of_rules(b)) =~= (
        a[0].targets + targets_of_rules(a.drop_first())) + targets_of_rules(b));
    }
}

/// Every name the map mentions: each entity's name and every rule target.
pub open spec fn collect_names_seq(es: Seq<EntityView>) -> Seq<Seq<char>>
    decreases es.len(),
{
    if es.len() == 0 {
        Seq::empty()
    } else {
        (seq![es[0].name] + targets_of_rules(es[0].requires) + targets_of_rules(es[0].excludes))
            + collect_names_seq(es.drop_first())
    }
}

/// The entity names, in input order.
pub open spec fn entity_names(es: Seq<EntityView>) -> Seq<Seq<char>> {
    Seq::new(es.len(), |i: int| es[i].name)
}

/// The duplicated names, each once, in order of their first repetition.
pub open spec fn spec_duplicate_names(names: Seq<Seq<char>>) -> Seq<Seq<char>>
    decreases names.len(),
{
    if names.len() == 0 {
        Seq::empty()
    } else {
        let d = spec_duplicate_names(names.drop_last());
        if names.drop_last().contains(names.last()) && !d.contains(names.last()) {
            d.push(names.last())
        } else {
            d
        }
    }
}

pub open spec fn has_duplicate(names: Seq<Seq<char>>) -> bool {
    exists|i: int, j: int| 0 <= i < j < names.len() && names[i] == names[j]
}

/// The post-preprocessing problem instance the engines consume: the entity
/// list, the universe of referenced names, and the original names whose
/// entity was split.
#[derive(Debug, PartialEq, Eq)]
pub struct EntityMap {
    pub entities: Vec<Entity>,
    pub names: Vec<String>,
    pub self_conflicts: Vec<String>,
}

#[verifier::ext_equal]
pub struct EntityMapView {
    pub entities: Seq<EntityView>,
    pub names: Seq<Seq<char>>,
    pub self_conflicts: Seq<Seq<char>>,
}

impl View for EntityMap {
    type V = EntityMapView;

    open spec fn view(&self) -> EntityMapView {
        EntityMapView {
            entities: dv_entities(self.entities@),
            names: dv_strings(self.names@),
            self_conflicts: dv_strings(self.self_conflicts@),
        }
    }
}

/// A fatal input error of the builder.
#[derive(Debug, PartialEq, Eq)]
pub enum EntityMapError {
    DuplicateEntityName(Vec<String>),
}

/// What a successful build yields.
pub open spec fn spec_build(es: Seq<EntityView>) -> EntityMapView {
    let ces = canon_entities(es);
    let pre = spec_preprocess(ces);
    EntityMapView {
        entities: pre,
        names: canon_names(collect_names_seq(pre)),
        self_conflicts: canon_names(splits_raw(ces)),
    }
}

fn canon_entity_exec(e: &Entity) -> (out: Entity)
    ensures
        out@ == canon_entity(e@),
{
    let out = Entity {
        name: e.name.clone(),
        requires: canon_rules_vec(crate::model::rule::clone_rules_vec(&e.requires)),
        excludes: canon_rules_vec(crate::model::rule::clone_rules_vec(&e.excludes)),
        source: e.source.clone(),
        priority: e.priority,
    };
    proof {
        assert(out@ =~= canon_entity(e@));
    }
    out
}

pub fn names_to_strings(v: Vec<EntityName>) -> (out: Vec<String>)
    ensures
        dv_strings(out@) == dv_names(v@),
{
    let ghost orig = dv_names(v@);
    let total = v.len();
    let mut out: Vec<String> = Vec::new();
    let mut rest = v;
    let mut i: usize = 0;
    proof {
        assert(dv_strings(out@) =~= orig.take(0));
        assert(dv_names(rest@) =~= orig.skip(0));
    }
    while rest.len() > 0
        invariant
            0 <= i <= total,
            total == orig.len(),
            i + rest@.len() == total,
            out@.len() == i,
            dv_names(rest@) == orig.skip(i as int),
            dv_strings(out@) == orig.take(i as int),
        decreases rest@.len(),
    {
        let ghost prev = dv_names(rest@);
        let p = rest.remove(0);
        proof {
            assert(prev[0] == orig[i as int]);
            assert(p@ == prev[0]);
            assert(dv_names(rest@) =~= prev.drop_first());
            assert(prev.drop_first() =~= orig.skip(i as int + 1));
        }
        out.push(p.0);
        proof {
            assert(dv_strings(out@) =~= orig.take(i as int + 1));
        }
        i = i + 1;
    }
    proof {
        assert(orig.take(i as int) =~= orig);
    }
    out
}

/// Appends the targets of every rule in the list to `acc`.
pub fn with_rule_targets(acc: Vec<EntityName>, rules: &Vec<EntityRule>) -> (out: Vec<EntityName>)
    ensures
        dv_names(out@) == dv_names(acc@) + targets_of_rules(dv_rules(rules@)),
{
    let ghost base = dv_names(acc@);
    let ghost rv = dv_rules(rules@);
    let mut out = acc;
    let mut i: usize = 0;
    let ghost done = Seq::<Seq<char>>::empty();
    proof {
        assert(dv_names(out@) =~= base + done);
        assert(rv.skip(0) =~= rv);
        assert(done + targets_of_rules(rv) =~= targets_of_rules(rv));
    }
    while i < rules.len()
        invariant
            0 <= i <= rules@.len(),
            rv == dv_rules(rules@),
            rv.len() == rules@.len(),
            dv_names(out@) == base + done,
            targets_of_rules(rv) == done + targets_of_rules(rv.skip(i as int)),
        decreases rules@.len() - i,
    {
        proof {
            assert(rv.skip(i as int)[0] == rv[i as int]);
            assert(rv[i as int] == rules@[i as int]@);
            assert(rv.skip(i as int).drop_first() =~= rv.skip(i as int + 1));
        }
        let ghost prevdone = done;
        let mut ts = rules[i].targets();
        let ghost tsv = dv_names(ts@);
        let ghost tso = ts@;
        let ghost outpre = out@;
        out.append(&mut ts);
        proof {
            done = prevdone + rv[i as int].targets;
            assert(tsv == rv[i as int].targets);
            assert(out@ == outpre + tso);
            lemma_dv_names_concat(outpre, tso);
            assert(dv_names(out@) =~= base + done);
            assert(prevdone + (rv[i as int].targets + targets_of_rules(rv.skip(i as int + 1)))
                =~= done + targets_of_rules(rv.skip(i as int + 1)));
        }
        i = i + 1;
    }
    proof {
        assert(rv.skip(i as int) =~= Seq::<RuleView>::empty());
        assert(done + targets_of_rules(rv.skip(i as int)) =~= done);
    }
    out
}

impl EntityMap {
    /// Validates the entity list and builds the problem instance.
    ///
    /// Fails exactly when two input entities share a name, listing each
    /// duplicated name once in order of its first repetition. On success the
    /// map holds the preprocessed entities, the sorted name universe, and
    /// the sorted set of split original names.
    #[verifier::rlimit(100)]
    pub fn build(entities: &Vec<Entity>) -> (r: Result<EntityMap, EntityMapError>)
        ensures
            match r {
                Result::Ok(m) => !has_duplicate(entity_names(dv_entities(entities@))) && m@
                    == spec_build(dv_entities(entities@)),
                Result::Err(e) => has_duplicate(entity_names(dv_entities(entities@))) && (match e {
                    EntityMapError::DuplicateEntityName(d) => dv_strings(d@)
                        == spec_duplicate_names(entity_names(dv_entities(entities@))),
                }),
            },
    {
        let ghost esv = dv_entities(entities@);
        let n = entities.len();
        // Step 1: duplicate detection over the input names.
        let mut dups: Vec<String> = Vec::new();
        let mut i: usize = 0;
        proof {
            assert(entity_names(esv).take(0) =~= Seq::<Seq<char>>::empty());
            assert(dv_strings(dups@) =~= spec_duplicate_names(entity_names(esv).take(0)));
        }
        while i < n
            invariant
                0 <= i <= n,
                n == entities@.len(),
                esv == dv_entities(entities@),
                esv.len() == n,
                dv_strings(dups@) == spec_duplicate_names(entity_names(esv).take(i as int)),
            decreases n - i,
        {
            proof {
                assert(entity_names(esv).take(i as int + 1).drop_last() =~= entity_names(
                    esv,
                ).take(i as int));
                assert(entity_names(esv).take(i as int + 1).last() == esv[i as int].name);
                assert(esv[i as int].name == entities@[i as int]@.name);
            }
            let name = entities[i].name.as_str();
            let mut seen = false;
            let mut j: usize = 0;
            while j < i
                invariant
                    0 <= j <= i <= n,
                    n == entities@.len(),
                    esv == dv_entities(entities@),
                    esv.len() == n,
                    name@ == esv[i as int].name,
                    seen ==> entity_names(esv).take(i as int).contains(name@),
                    !seen ==> forall|t: int|
                        0 <= t < j ==> entity_names(esv).take(i as int)[t] != name@,
                decreases i - j,
            {
                proof {
                    assert(entity_names(esv).take(i as int)[j as int] == esv[j as int].name);
                    assert(esv[j as int].name == entities@[j as int]@.name);
                }
                if eq_str(entities[j].name.as_str(), name) {
                    seen = true;
                }
                j = j + 1;
            }
            proof {
                if !seen {
                    if entity_names(esv).take(i as int).contains(name@) {
                        let t = choose|t: int|
                            0 <= t < i && entity_names(esv).take(i as int)[t] == name@;
                        assert(false);
                    }
                }
            }
            if seen {
                if !names_vec_contains(&dups, name) {
                    dups.push(name.to_owned());
                    proof {
                        assert(dv_strings(dups@) =~= spec_duplicate_names(
                            entity_names(esv).take(i as int + 1),
                        ));
                    }
                } else {
                    proof {
                        assert(dv_strings(dups@) =~= spec_duplicate_names(
                            entity_names(esv).take(i as int + 1),
                        ));
                    }
                }
            } else {
                proof {
                    assert(dv_strings(dups@) =~= spec_duplicate_names(
                        entity_names(esv).take(i as int + 1),
                    ));
                }
            }
            i = i + 1;
        }
        proof {
            assert(entity_names(esv).take(i as int) =~= entity_names(esv));
        }
        if dups.len() > 0 {
            proof {
                lemma_duplicates_exist(entity_names(esv));
            }
            return Result::Err(EntityMapError::DuplicateEntityName(dups));
        }
        proof {
            lemma_duplicates_exist(entity_names(esv));
        }
        // Step 2: canonicalize the rule lists of every entity.
        let mut ces: Vec<Entity> = Vec::new();
        let mut i: usize = 0;
        proof {
            assert(dv_entities(ces@) =~= canon_entities(esv.take(0)));
        }
        while i < n
            invariant
                0 <= i <= n,
                n == entities@.len(),
                esv == dv_entities(entities@),
                esv.len() == n,
                ces@.len() == i,
                dv_entities(ces@) == canon_entities(esv.take(i as int)),
            decreases n - i,
        {
            proof {
                assert(esv[i as int] == entities@[i as int]@);
            }
            let ce = canon_entity_exec(&entities[i]);
            let ghost prevces = ces@;
            ces.push(ce);
            proof {
                assert(canon_entities(esv.take(i as int + 1))[i as int] == canon_entity(
                    esv[i as int],
                ));
                assert forall|j: int|
                    0 <= j < ces@.len() implies #[trigger] dv_entities(ces@)[j] == canon_entities(
                    esv.take(i as int + 1),
                )[j] by {
                    if j < i {
                        assert(ces@[j] == prevces[j]);
                        assert(dv_entities(prevces)[j] == canon_entities(esv.take(i as int))[j]);
                        assert(canon_entities(esv.take(i as int))[j] == canon_entity(
                            esv.take(i as int)[j],
                        ));
                        assert(canon_entities(esv.take(i as int + 1))[j] == canon_entity(
                            esv.take(i as int + 1)[j],
                        ));
                    } else {
                        assert(dv_entities(ces@)[j] == ces@[j]@);
                    }
                }
                assert(dv_entities(ces@) =~= canon_entities(esv.take(i as int + 1)));
            }
            i = i + 1;
        }
        proof {
            assert(esv.take(i as int) =~= esv);
        }
        let ghost cesv = canon_entities(esv);
        // Step 3: split self-excluding entities.
        let total = ces.len();
        let mut split_entities: Vec<Entity> = Vec::new();
        let mut split_names: Vec<EntityName> = Vec::new();
        let mut rest = ces;
        let mut i: usize = 0;
        let ghost done_e = Seq::<EntityView>::empty();
        let ghost done_s = Seq::<Seq<char>>::empty();
        proof {
            assert(dv_entities(split_entities@) =~= done_e);
            assert(dv_names(split_names@) =~= done_s);
            assert(dv_entities(rest@) =~= cesv.skip(0));
            assert(cesv.skip(0) =~= cesv);
            assert(done_e + phase1(cesv) =~= phase1(cesv));
            assert(done_s + splits_raw(cesv) =~= splits_raw(cesv));
        }
        while rest.len() > 0
            invariant
                0 <= i <= total,
                total == cesv.len(),
                i + rest@.len() == total,
                dv_entities(rest@) == cesv.skip(i as int),
                dv_entities(split_entities@) == done_e,
                dv_names(split_names@) == done_s,
                phase1(cesv) == done_e + phase1(cesv.skip(i as int)),
                splits_raw(cesv) == done_s + splits_raw(cesv.skip(i as int)),
            decreases rest@.len(),
        {
            let ghost prev = dv_entities(rest@);
            let e = rest.remove(0);
            proof {
                assert(prev[0] == cesv[i as int]);
                assert(e@ == prev[0]);
                assert(dv_entities(rest@) =~= prev.drop_first());
                assert(prev.drop_first() =~= cesv.skip(i as int + 1));
                assert(cesv.skip(i as int).drop_first() =~= cesv.skip(i as int + 1));
            }
            let ghost prevdone_e = done_e;
            let ghost prevdone_s = done_s;
            if entity_self_excluding(&e) {
                let name1 = sibling_name(e.name.0.as_str(), false);
                let name2 = sibling_name(e.name.0.as_str(), true);
                let e1 = Entity {
                    name: EntityName(name1.clone()),
                    requires: force_split_vec(
                        &e.requires,
                        e.name.0.as_str(),
                        name1.as_str(),
                        name2.as_str(),
                    ),
                    excludes: rename_set_vec(&e.excludes, e.name.0.as_str(), name2.as_str()),
                    source: e.source.clone(),
                    priority: e.priority,
                };
                let e2 = Entity {
                    name: EntityName(name2.clone()),
                    requires: force_split_vec(
                        &e.requires,
                        e.name.0.as_str(),
                        name1.as_str(),
                        name2.as_str(),
                    ),
                    excludes: rename_set_vec(&e.excludes, e.name.0.as_str(), name1.as_str()),
                    source: e.source.clone(),
                    priority: e.priority,
                };
                split_entities.push(e1);
                split_entities.push(e2);
                split_names.push(e.name);
                proof {
                    done_e = prevdone_e + phase1_of(cesv[i as int]);
                    done_s = prevdone_s + seq![cesv[i as int].name];
                    assert(phase1_of(cesv[i as int])[0] =~= split_entities@[split_entities@.len()
                        - 2]@);
                    assert(phase1_of(cesv[i as int])[1] =~= split_entities@[split_entities@.len()
                        - 1]@);
                    assert(dv_entities(split_entities@) =~= done_e);
                    assert(dv_names(split_names@) =~= done_s);
                    assert(splits_raw(cesv.skip(i as int)) == seq![cesv[i as int].name]
                        + splits_raw(cesv.skip(i as int + 1)));
                    assert(prevdone_s + (seq![cesv[i as int].name] + splits_raw(
                        cesv.skip(i as int + 1),
                    )) =~= done_s + splits_raw(cesv.skip(i as int + 1)));
                    assert(prevdone_e + (phase1_of(cesv[i as int]) + phase1(
                        cesv.skip(i as int + 1),
                    )) =~= done_e + phase1(cesv.skip(i as int + 1)));
                }
            } else {
                split_entities.push(e);
                proof {
                    done_e = prevdone_e + phase1_of(cesv[i as int]);
                    assert(phase1_of(cesv[i as int]) =~= seq![cesv[i as int]]);
                    assert(dv_entities(split_entities@) =~= done_e);
                    assert(splits_raw(cesv.skip(i as int)) == Seq::<Seq<char>>::empty()
                        + splits_raw(cesv.skip(i as int + 1)));
                    assert(prevdone_s + (Seq::<Seq<char>>::empty() + splits_raw(
                        cesv.skip(i as int + 1),
                    )) =~= done_s + splits_raw(cesv.skip(i as int + 1)));
                    assert(prevdone_e + (phase1_of(cesv[i as int]) + phase1(
                        cesv.skip(i as int + 1),
                    )) =~= done_e + phase1(cesv.skip(i as int + 1)));
                }
            }
            i = i + 1;
        }
        proof {
            assert(cesv.skip(i as int) =~= Seq::<EntityView>::empty());
            assert(done_e + phase1(cesv.skip(i as int)) =~= done_e);
            assert(done_s + splits_raw(cesv.skip(i as int)) =~= done_s);
        }
        // Step 4: canonical split-name set and the rewrite pass.
        let split_names = canon_names_vec(split_names);
        let splits = names_to_strings(split_names);
        let ghost splitsv = canon_names(splits_raw(cesv));
        let ghost pre1 = phase1(cesv);
        let total1 = split_entities.len();
        let mut out_entities: Vec<Entity> = Vec::new();
        let mut rest = split_entities;
        let mut i: usize = 0;
        proof {
            assert(dv_entities(rest@) =~= pre1.skip(0));
            assert(dv_entities(out_entities@) =~= phase2(pre1.take(0), splitsv));
        }
        while rest.len() > 0
            invariant
                0 <= i <= total1,
                total1 == pre1.len(),
                i + rest@.len() == total1,
                dv_strings(splits@) == splitsv,
                dv_entities(rest@) == pre1.skip(i as int),
                out_entities@.len() == i,
                dv_entities(out_entities@) == phase2(pre1.take(i as int), splitsv),
            decreases rest@.len(),
        {
            let ghost prev = dv_entities(rest@);
            let e = rest.remove(0);
            proof {
                assert(prev[0] == pre1[i as int]);
                assert(e@ == prev[0]);
                assert(dv_entities(rest@) =~= prev.drop_first());
                assert(prev.drop_first() =~= pre1.skip(i as int + 1));
            }
            let ne = Entity {
                name: e.name,
                requires: split_require_vec(&e.requires, &splits),
                excludes: split_exclude_vec(&e.excludes, &splits),
                source: e.source,
                priority: e.priority,
            };
            let ghost prevout = out_entities@;
            out_entities.push(ne);
            proof {
                assert(phase2(pre1.take(i as int + 1), splitsv)[i as int] == phase2_entity(
                    pre1.take(i as int + 1)[i as int],
                    splitsv,
                ));
                assert forall|j: int|
                    0 <= j < out_entities@.len() implies #[trigger] dv_entities(
                    out_entities@,
                )[j] == phase2(pre1.take(i as int + 1), splitsv)[j] by {
                    if j < i {
                        assert(out_entities@[j] == prevout[j]);
                        assert(dv_entities(prevout)[j] == phase2(pre1.take(i as int), splitsv)[j]);
                        assert(phase2(pre1.take(i as int), splitsv)[j] == phase2_entity(
                            pre1.take(i as int)[j],
                            splitsv,
                        ));
                        assert(phase2(pre1.take(i as int + 1), splitsv)[j] == phase2_entity(
                            pre1.take(i as int + 1)[j],
                            splitsv,
                        ));
                    } else {
                        assert(dv_entities(out_entities@)[j] == out_entities@[j]@);
                        assert(out_entities@[j]@ =~= phase2_entity(pre1[i as int], splitsv));
                    }
                }
                assert(dv_entities(out_entities@) =~= phase2(pre1.take(i as int + 1), splitsv));
            }
            i = i + 1;
        }
        proof {
            assert(pre1.take(i as int) =~= pre1);
        }
        // Step 5: the name universe.
        let ghost outv = phase2(pre1, splitsv);
        let total2 = out_entities.len();
        let mut gathered: Vec<EntityName> = Vec::new();
        let mut i: usize = 0;
        let ghost done_n = Seq::<Seq<char>>::empty();
        proof {
            assert(dv_names(gathered@) =~= done_n);
            assert(outv.skip(0) =~= outv);
            assert(done_n + collect_names_seq(outv) =~= collect_names_seq(outv));
        }
        while i < total2
            invariant
                0 <= i <= total2,
                total2 == out_entities@.len(),
                outv == dv_entities(out_entities@),
                outv.len() == total2,
                dv_names(gathered@) == done_n,
                collect_names_seq(outv) == done_n + collect_names_seq(outv.skip(i as int)),
            decreases total2 - i,
        {
            proof {
                assert(outv.skip(i as int)[0] == outv[i as int]);
                assert(outv[i as int] == out_entities@[i as int]@);
                assert(outv.skip(i as int).drop_first() =~= outv.skip(i as int + 1));
            }
            let ghost prevdone = done_n;
            let e = &out_entities[i];
            let mut acc: Vec<EntityName> = Vec::new();
            acc.push(e.name.clone());
            proof {
                assert(dv_names(acc@) =~= seq![outv[i as int].name]);
            }
            let acc = with_rule_targets(acc, &e.requires);
            let acc = with_rule_targets(acc, &e.excludes);
            let mut acc = acc;
            gathered.append(&mut acc);
            proof {
                done_n = prevdone + (seq![outv[i as int].name] + targets_of_rules(
                    outv[i as int].requires,
                ) + targets_of_rules(outv[i as int].excludes));
                assert(dv_names(gathered@) =~= done_n);
                assert(prevdone + ((seq![outv[i as int].name] + targets_of_rules(
                    outv[i as int].requires,
                ) + targets_of_rules(outv[i as int].excludes)) + collect_names_seq(
                    outv.skip(i as int + 1),
                )) =~= done_n + collect_names_seq(outv.skip(i as int + 1)));
            }
            i = i + 1;
        }
        proof {
            assert(outv.skip(i as int) =~= Seq::<EntityView>::empty());
            assert(done_n + collect_names_seq(outv.skip(i as int)) =~= done_n);
        }
        let gathered = canon_names_vec(gathered);
        let names = names_to_strings(gathered);
        let m = EntityMap { entities: out_entities, names, self_conflicts: splits };
        proof {
            assert(m@ =~= spec_build(esv));
        }
        Result::Ok(m)
    }
}

/// A name list has a repetition exactly when the duplicate list is
/// non-empty.
pub proof fn lemma_duplicates_exist(names: Seq<Seq<char>>)
    ensures
        has_duplicate(names) <==> spec_duplicate_names(names).len() > 0,
    decreases names.len(),
{
    if names.len() == 0 {
    } else {
        lemma_duplicates_exist(names.drop_last());
        let d = spec_duplicate_names(names.drop_last());
        if names.drop_last().contains(names.last()) && !d.contains(names.last()) {
            let j = choose|j: int|
                0 <= j < names.drop_last().len() && names.drop_last()[j] == names.last();
            assert(names[j] == names[names.len() - 1]);
            assert(has_duplicate(names));
        } else {
            if has_duplicate(names) {
                let (i, j) = choose|i: int, j: int|
                    0 <= i < j < names.len() && names[i] == names[j];
                if j < names.len() - 1 {
                    assert(names.drop_last()[i] == names.drop_last()[j]);
                    assert(has_duplicate(names.drop_last()));
                } else {
                    assert(names.drop_last()[i] == names.last());
                    assert(names.drop_last().contains(names.last()));
                }
            }
            if has_duplicate(names.drop_last()) {
                let (i, j) = choose|i: int, j: int|
                    0 <= i < j < names.drop_last().len() && names.drop_last()[i]
                        == names.drop_last()[j];
                assert(names[i] == names[j]);
                assert(has_duplicate(names));
            }
        }
    }
}

/// The two sibling names of a split are distinct.
pub proof fn lemma_sib_distinct(n: Seq<char>)
    ensures
        sib1(n) != sib2(n),
{
    reveal_strlit("_1");
    reveal_strlit("_2");
    assert("_1"@.len() == 2 && "_2"@.len() == 2);
    if sib1(n) == sib2(n) {
        assert(sib1(n)[n.len() as int + 1] == "_1"@[1]);
        assert(sib2(n)[n.len() as int + 1] == "_2"@[1]);
        assert("_1"@[1] == '1' && "_2"@[1] == '2');
        assert(false);
    }
}

/// Splitting a self-excluding entity yields exactly its two siblings, and
/// neither sibling carries an exclude that targets the sibling itself.
///
/// The names of the siblings are the entity's name with a suffix; an input
/// whose exclude rules already target such a suffixed name is left out.
pub proof fn lemma_self_conflict_split(e: EntityView)
    requires
        is_self_excluding(e),
        forall|j: int|
            0 <= j < e.excludes.len() ==> !(#[trigger] e.excludes[j]).has_target(sib1(e.name))
                && !e.excludes[j].has_target(sib2(e.name)),
    ensures
        phase1_of(e).len() == 2,
        phase1_of(e)[0].name == sib1(e.name),
        phase1_of(e)[1].name == sib2(e.name),
        forall|k: int, j: int|
            #![trigger phase1_of(e)[k].excludes[j]]
            0 <= k < 2 && 0 <= j < phase1_of(e)[k].excludes.len() ==> !phase1_of(
                e,
            )[k].excludes[j].has_target(phase1_of(e)[k].name),
{
    lemma_sib_distinct(e.name);
    assert forall|k: int, j: int|
        #![trigger phase1_of(e)[k].excludes[j]]
        0 <= k < 2 && 0 <= j < phase1_of(e)[k].excludes.len() implies !phase1_of(
        e,
    )[k].excludes[j].has_target(phase1_of(e)[k].name) by {
        let own = phase1_of(e)[k].name;
        let to = if k == 0 {
            sib2(e.name)
        } else {
            sib1(e.name)
        };
        let renamed = rename_seq(e.excludes, e.name, to);
        let r = phase1_of(e)[k].excludes[j];
        crate::model::rule::lemma_canon_rules_membership(renamed, r);
        assert(canon_rules(renamed).contains(r));
        let w = choose|w: int| 0 <= w < renamed.len() && renamed[w] == r;
        assert(r == rename_rule(e.excludes[w], e.name, to));
        let orig = e.excludes[w];
        assert(!orig.has_target(own));
        if r.has_target(own) {
            let t = choose|t: int| 0 <= t < r.targets.len() && r.targets[t] == own;
            if orig.multi {
                let mapped = rename_targets(orig.targets, e.name, to);
                assert(r.targets == canon_names(mapped));
                crate::model::rule::lemma_canon_names_membership(mapped, own);
                assert(canon_names(mapped).contains(own)) by {
                    assert(r.targets[t] == own);
                }
                let mw = choose|mw: int| 0 <= mw < mapped.len() && mapped[mw] == own;
                if orig.targets[mw] == e.name {
                    assert(own == to);
                    assert(false);
                } else {
                    assert(orig.targets[mw] == own);
                    assert(orig.has_target(own));
                    assert(false);
                }
            } else {
                if orig.targets[0] == e.name {
                    assert(r.targets =~= seq![to]);
                    assert(own == to);
                    assert(false);
                } else {
                    assert(r == orig);
                    assert(orig.has_target(own));
                    assert(false);
                }
            }
        }
    }
}

/// The duplicate list holds exactly the names that occur at two positions.
pub proof fn lemma_duplicate_names_exact(names: Seq<Seq<char>>, x: Seq<char>)
    ensures
        spec_duplicate_names(names).contains(x) <==> (exists|i: int, j: int|
            0 <= i < j < names.len() && names[i] == x && names[j] == x),
    decreases names.len(),
{
    if names.len() == 0 {
        if spec_duplicate_names(names).contains(x) {
            let w = choose|w: int|
                0 <= w < spec_duplicate_names(names).len() && spec_duplicate_names(names)[w] == x;
        }
    } else {
        lemma_duplicate_names_exact(names.drop_last(), x);
        let d = spec_duplicate_names(names.drop_last());
        let out = spec_duplicate_names(names);
        if out.contains(x) {
            let w = choose|w: int| 0 <= w < out.len() && out[w] == x;
            if w < d.len() {
                assert(d.contains(x)) by {
                    assert(d[w] == x);
                }
                let (i, j) = choose|i: int, j: int|
                    0 <= i < j < names.drop_last().len() && names.drop_last()[i] == x
                        && names.drop_last()[j] == x;
                assert(names[i] == x && names[j] == x);
            } else {
                assert(x == names.last());
                assert(names.drop_last().contains(x));
                let i = choose|i: int|
                    0 <= i < names.drop_last().len() && names.drop_last()[i] == x;
                assert(names[i] == x && names[names.len() - 1] == x);
            }
        }
        if exists|i: int, j: int| 0 <= i < j < names.len() && names[i] == x && names[j] == x {
            let (i, j) = choose|i: int, j: int|
                0 <= i < j < names.len() && names[i] == x && names[j] == x;
            if j < names.len() - 1 {
                assert(names.drop_last()[i] == x && names.drop_last()[j] == x);
                assert(d.contains(x));
                let w = choose|w: int| 0 <= w < d.len() && d[w] == x;
                if names.drop_last().contains(names.last()) && !d.contains(names.last()) {
                    assert(out[w] == x);
                } else {
                    assert(out[w] == x);
                }
            } else {
                assert(x == names.last());
                assert(names.drop_last()[i] == x);
                assert(names.drop_last().contains(x));
                if d.contains(x) {
                    let w = choose|w: int| 0 <= w < d.len() && d[w] == x;
                    assert(out[w] == x);
                } else {
                    assert(out[d.len() as int] == x);
                }
            }
        }
    }
}

/// The rule with each split target renamed to its first or second sibling.
pub open spec fn sibling_rename(r: RuleView, splits: Seq<Seq<char>>, second: bool) -> RuleView {
    if r.multi {
        RuleView {
            targets: canon_names(
                r.targets.map_values(
                    |t: Seq<char>|
                        if splits.contains(t) {
                            if second {
                                sib2(t)
                            } else {
                                sib1(t)
                            }
                        } else {
                            t
                        },
                ),
            ),
            ..r
        }
    } else {
        if splits.contains(r.targets[0]) {
            RuleView {
                targets: seq![
                    if second {
                        sib2(r.targets[0])
                    } else {
                        sib1(r.targets[0])
                    },
                ],
                ..r
            }
        } else {
            r
        }
    }
}

} // verus!
