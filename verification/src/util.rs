//! The topology splitter: partitions an entity list into one sub-problem
//! per metadata key, and the regrouping of loose rules into entities.

use vstd::prelude::*;

use crate::model::entity::{Entity, EntityView};
use crate::model::rule::{dv_rules, spec_meta_get, EntityRule, EntityRuleType, RuleView};
use crate::order::eq_str;

verus! {

/// The partition key of a rule: its metadata entry under `mk`, or the
/// default when absent.
pub open spec fn spec_rule_key(r: RuleView, mk: Seq<char>, dk: Seq<char>) -> Seq<char> {
    match r.metadata {
        Some(md) => match spec_meta_get(md, mk) {
            Some(v) => v,
            None => dk,
        },
        None => dk,
    }
}

/// Every rule of the entity carries the partition key.
pub open spec fn entity_keyed(e: EntityView, key: Seq<char>, mk: Seq<char>, dk: Seq<char>) -> bool {
    &&& forall|j: int|
        0 <= j < e.requires.len() ==> spec_rule_key(#[trigger] e.requires[j], mk, dk) == key
    &&& forall|j: int|
        0 <= j < e.excludes.len() ==> spec_rule_key(#[trigger] e.excludes[j], mk, dk) == key
}

/// Every entity of every group carries only rules of the group's key.
pub open spec fn groups_keyed(
    groups: Seq<(String, Vec<Entity>)>,
    mk: Seq<char>,
    dk: Seq<char>,
) -> bool {
    forall|g: int, e: int|
        0 <= g < groups.len() && 0 <= e < (#[trigger] groups[g]).1@.len() ==> entity_keyed(
            (#[trigger] groups[g].1@[e])@,
            groups[g].0@,
            mk,
            dk,
        )
}

/// The rule stands, under entity `ename`, in the group keyed `k`.
pub open spec fn rule_placed(
    groups: Seq<(String, Vec<Entity>)>,
    ename: Seq<char>,
    rv: RuleView,
    k: Seq<char>,
    req: bool,
) -> bool {
    exists|g: int, e: int|
        #![trigger groups[g].1@[e]]
        0 <= g < groups.len() && groups[g].0@ == k && 0 <= e < groups[g].1@.len()
            && groups[g].1@[e]@.name == ename && (if req {
            groups[g].1@[e]@.requires.contains(rv)
        } else {
            groups[g].1@[e]@.excludes.contains(rv)
        })
}

/// Every rule of the first `upto` entities stands in the group keyed by its
/// own partition key, under its entity's name.
pub open spec fn split_complete(
    groups: Seq<(String, Vec<Entity>)>,
    entities: Seq<Entity>,
    upto: int,
    mk: Seq<char>,
    dk: Seq<char>,
) -> bool {
    &&& forall|i: int, j: int|
        #![trigger entities[i]@.requires[j]]
        0 <= i < upto && 0 <= j < entities[i]@.requires.len() ==> rule_placed(
            groups,
            entities[i]@.name,
            entities[i]@.requires[j],
            spec_rule_key(entities[i]@.requires[j], mk, dk),
            true,
        )
    &&& forall|i: int, j: int|
        #![trigger entities[i]@.excludes[j]]
        0 <= i < upto && 0 <= j < entities[i]@.excludes.len() ==> rule_placed(
            groups,
            entities[i]@.name,
            entities[i]@.excludes[j],
            spec_rule_key(entities[i]@.excludes[j], mk, dk),
            false,
        )
}

/// The group keys are pairwise distinct.
pub open spec fn group_keys_unique(groups: Seq<(String, Vec<Entity>)>) -> bool {
    forall|g1: int, g2: int|
        0 <= g1 < g2 < groups.len() ==> (#[trigger] groups[g1]).0@ != (#[trigger] groups[g2]).0@
}

/// The rule stands in the bucket keyed `k`.
pub open spec fn bucket_placed(
    buckets: Seq<(String, Vec<EntityRule>, Vec<EntityRule>)>,
    rv: RuleView,
    k: Seq<char>,
    req: bool,
) -> bool {
    exists|bi: int|
        0 <= bi < buckets.len() && (#[trigger] buckets[bi]).0@ == k && (if req {
            dv_rules(buckets[bi].1@).contains(rv)
        } else {
            dv_rules(buckets[bi].2@).contains(rv)
        })
}

/// The rules of `rs` carrying the partition key `k`, in input order.
pub open spec fn keyed_rules(rs: Seq<RuleView>, k: Seq<char>, mk: Seq<char>, dk: Seq<char>) -> Seq<
    RuleView,
>
    decreases rs.len(),
{
    if rs.len() == 0 {
        Seq::empty()
    } else {
        let pre = keyed_rules(rs.drop_last(), k, mk, dk);
        if spec_rule_key(rs.last(), mk, dk) == k {
            pre.push(rs.last())
        } else {
            pre
        }
    }
}

/// The bucket keys are pairwise distinct.
pub open spec fn bucket_keys_unique(
    buckets: Seq<(String, Vec<EntityRule>, Vec<EntityRule>)>,
) -> bool {
    forall|b1: int, b2: int|
        0 <= b1 < b2 < buckets.len() ==> (#[trigger] buckets[b1]).0@ != (#[trigger] buckets[b2]).0@
}

/// Some bucket is keyed `k`.
pub open spec fn has_bucket(
    buckets: Seq<(String, Vec<EntityRule>, Vec<EntityRule>)>,
    k: Seq<char>,
) -> bool {
    exists|bi: int| 0 <= bi < buckets.len() && (#[trigger] buckets[bi]).0@ == k
}

/// The index of the bucket keyed `k`.
pub open spec fn bucket_index(
    buckets: Seq<(String, Vec<EntityRule>, Vec<EntityRule>)>,
    k: Seq<char>,
) -> int {
    choose|bi: int| 0 <= bi < buckets.len() && (#[trigger] buckets[bi]).0@ == k
}

/// The require rules stored under key `k`; empty when no bucket carries it.
pub open spec fn reqs_under(
    buckets: Seq<(String, Vec<EntityRule>, Vec<EntityRule>)>,
    k: Seq<char>,
) -> Seq<RuleView> {
    if has_bucket(buckets, k) {
        dv_rules(buckets[bucket_index(buckets, k)].1@)
    } else {
        Seq::empty()
    }
}

/// The exclude rules stored under key `k`; empty when no bucket carries it.
pub open spec fn excs_under(
    buckets: Seq<(String, Vec<EntityRule>, Vec<EntityRule>)>,
    k: Seq<char>,
) -> Seq<RuleView> {
    if has_bucket(buckets, k) {
        dv_rules(buckets[bucket_index(buckets, k)].2@)
    } else {
        Seq::empty()
    }
}

/// With distinct keys, the bucket keyed as entry `bi` is entry `bi`.
proof fn lemma_bucket_index_is(
    buckets: Seq<(String, Vec<EntityRule>, Vec<EntityRule>)>,
    k: Seq<char>,
    bi: int,
)
    requires
        bucket_keys_unique(buckets),
        0 <= bi < buckets.len(),
        buckets[bi].0@ == k,
    ensures
        has_bucket(buckets, k),
        bucket_index(buckets, k) == bi,
{
    assert(has_bucket(buckets, k)) by {
        assert((#[trigger] buckets[bi]).0@ == k);
    }
    let w = bucket_index(buckets, k);
    assert(0 <= w < buckets.len() && buckets[w].0@ == k);
    if w < bi {
        assert((#[trigger] buckets[w]).0@ != (#[trigger] buckets[bi]).0@);
    } else if bi < w {
        assert((#[trigger] buckets[bi]).0@ != (#[trigger] buckets[w]).0@);
    }
}

/// Taking one more rule extends the keyed selection exactly when the rule
/// carries the key.
proof fn lemma_keyed_take_step(rs: Seq<RuleView>, j: int, k: Seq<char>, mk: Seq<char>, dk: Seq<char>)
    requires
        0 <= j < rs.len(),
    ensures
        spec_rule_key(rs[j], mk, dk) == k ==> keyed_rules(rs.take(j + 1), k, mk, dk) == keyed_rules(
            rs.take(j),
            k,
            mk,
            dk,
        ).push(rs[j]),
        spec_rule_key(rs[j], mk, dk) != k ==> keyed_rules(rs.take(j + 1), k, mk, dk) == keyed_rules(
            rs.take(j),
            k,
            mk,
            dk,
        ),
{
    assert(rs.take(j + 1).drop_last() =~= rs.take(j));
    assert(rs.take(j + 1).last() == rs[j]);
    assert(rs.take(j + 1).len() == j + 1);
}

/// Canonicalizing keeps at least one rule.
proof fn lemma_canon_rules_keeps_some(s: Seq<RuleView>)
    requires
        s.len() > 0,
    ensures
        crate::model::rule::canon_rules(s).len() > 0,
{
    crate::model::rule::lemma_canon_rules_membership(s, s[0]);
    assert(s.contains(s[0]));
}

/// The group entity is the input entity's restriction to the key: same
/// name, source and priority, its lists exactly the input rules of that
/// key in canonical form, and at least one rule kept.
pub open spec fn entity_restricted(
    ge: EntityView,
    e: EntityView,
    key: Seq<char>,
    mk: Seq<char>,
    dk: Seq<char>,
) -> bool {
    &&& ge.name == e.name
    &&& ge.source == e.source
    &&& ge.priority == e.priority
    &&& ge.requires == crate::model::rule::canon_rules(keyed_rules(e.requires, key, mk, dk))
    &&& ge.excludes == crate::model::rule::canon_rules(keyed_rules(e.excludes, key, mk, dk))
    &&& ge.requires.len() + ge.excludes.len() > 0
}

/// Every entity of every group is the key-restriction of some input
/// entity: nothing fabricated, nothing rule-less.
pub open spec fn split_exact(
    groups: Seq<(String, Vec<Entity>)>,
    entities: Seq<Entity>,
    mk: Seq<char>,
    dk: Seq<char>,
) -> bool {
    forall|g: int, ee: int|
        #![trigger groups[g].1@[ee]]
        0 <= g < groups.len() && 0 <= ee < groups[g].1@.len() ==> exists|i: int|
            0 <= i < entities.len() && entity_restricted(
                groups[g].1@[ee]@,
                entities[i]@,
                groups[g].0@,
                mk,
                dk,
            )
}

fn rule_key(r: &EntityRule, mk: &str, dk: &str) -> (k: String)
    ensures
        k@ == spec_rule_key(r@, mk@, dk@),
{
    match r.metadata(mk) {
        Some(v) => v.to_owned(),
        None => dk.to_owned(),
    }
}

/// Partitions the entities: for every entity, its rules are fanned out into
/// buckets keyed by each rule's metadata entry under `meta_key` (or the
/// default), and each bucket becomes a copy of the entity carrying only the
/// rules of that key. Every input rule lands in the group keyed by its own
/// key, group keys are pairwise distinct, and every group rule carries its
/// group's key.
pub fn split_by_metadata(entities: &Vec<Entity>, meta_key: &str, default_meta_key: &str) -> (r: Vec<
    (String, Vec<Entity>),
>)
    ensures
        groups_keyed(r@, meta_key@, default_meta_key@),
        group_keys_unique(r@),
        split_complete(r@, entities@, entities@.len() as int, meta_key@, default_meta_key@),
        split_exact(r@, entities@, meta_key@, default_meta_key@),
{
    let ghost mk = meta_key@;
    let ghost dk = default_meta_key@;
    let ghost esv = entities@;
    let mut groups: Vec<(String, Vec<Entity>)> = Vec::new();
    let mut i: usize = 0;
    while i < entities.len()
        invariant
            0 <= i <= entities@.len(),
            mk == meta_key@,
            dk == default_meta_key@,
            esv == entities@,
            groups_keyed(groups@, mk, dk),
            group_keys_unique(groups@),
            split_complete(groups@, esv, i as int, mk, dk),
            split_exact(groups@, esv, mk, dk),
        decreases entities@.len() - i,
    {
        let e = &entities[i];
        // Per-entity buckets: key, requires, excludes.
        let mut buckets: Vec<(String, Vec<EntityRule>, Vec<EntityRule>)> = Vec::new();
        proof {
            assert forall|k2: Seq<char>| #[trigger] reqs_under(buckets@, k2) == keyed_rules(
                e@.requires.take(0),
                k2,
                mk,
                dk,
            ) by {
                assert(!has_bucket(buckets@, k2)) by {
                    if has_bucket(buckets@, k2) {
                        let w = choose|w: int|
                            0 <= w < buckets@.len() && (#[trigger] buckets@[w]).0@ == k2;
                    }
                }
                assert(e@.requires.take(0).len() == 0);
            }
            assert forall|k2: Seq<char>| #[trigger] excs_under(buckets@, k2) == Seq::<
                RuleView,
            >::empty() by {
                assert(!has_bucket(buckets@, k2)) by {
                    if has_bucket(buckets@, k2) {
                        let w = choose|w: int|
                            0 <= w < buckets@.len() && (#[trigger] buckets@[w]).0@ == k2;
                    }
                }
            }
        }
        let mut j: usize = 0;
        while j < e.requires.len()
            invariant
                0 <= j <= e.requires@.len(),
                mk == meta_key@,
                dk == default_meta_key@,
                esv == entities@,
                0 <= i < esv.len(),
                e@ == esv[i as int]@,
                e@.requires.len() == e.requires@.len(),
                buckets_keyed(buckets@, mk, dk),
                bucket_keys_unique(buckets@),
                forall|k2: Seq<char>| #[trigger] reqs_under(buckets@, k2) == keyed_rules(
                    e@.requires.take(j as int),
                    k2,
                    mk,
                    dk,
                ),
                forall|k2: Seq<char>| #[trigger] excs_under(buckets@, k2) == Seq::<
                    RuleView,
                >::empty(),
                forall|k2: Seq<char>| #[trigger] has_bucket(buckets@, k2) ==> keyed_rules(
                    e@.requires.take(j as int),
                    k2,
                    mk,
                    dk,
                ).len() > 0,
                forall|jj: int|
                    #![trigger e@.requires[jj]]
                    0 <= jj < j ==> bucket_placed(
                        buckets@,
                        e@.requires[jj],
                        spec_rule_key(e@.requires[jj], mk, dk),
                        true,
                    ),
            decreases e.requires@.len() - j,
        {
            proof {
                assert(e@.requires[j as int] == e.requires@[j as int]@);
            }
            let key = rule_key(&e.requires[j], meta_key, default_meta_key);
            let rule = e.requires[j].clone();
            proof {
                assert(mk == meta_key@ && dk == default_meta_key@);
                assert(rule@ == e.requires@[j as int]@);
                assert(key@ == spec_rule_key(rule@, mk, dk));
            }
            let ghost prevb = buckets@;
            bucket_push(&mut buckets, key, rule, true, Ghost(mk), Ghost(dk));
            proof {
                let kv = spec_rule_key(e@.requires[j as int], mk, dk);
                assert forall|k2: Seq<char>| #[trigger] reqs_under(buckets@, k2) == keyed_rules(
                    e@.requires.take(j as int + 1),
                    k2,
                    mk,
                    dk,
                ) by {
                    lemma_keyed_take_step(e@.requires, j as int, k2, mk, dk);
                    if k2 == kv {
                        assert(reqs_under(buckets@, kv) == reqs_under(prevb, kv).push(
                            e@.requires[j as int],
                        ));
                    } else {
                        assert(reqs_under(buckets@, k2) == reqs_under(prevb, k2));
                    }
                }
                assert forall|k2: Seq<char>| #[trigger] excs_under(buckets@, k2) == Seq::<
                    RuleView,
                >::empty() by {
                    if k2 == kv {
                        assert(excs_under(buckets@, kv) == excs_under(prevb, kv));
                    } else {
                        assert(excs_under(buckets@, k2) == excs_under(prevb, k2));
                    }
                }
                assert forall|k2: Seq<char>| #[trigger] has_bucket(buckets@, k2) implies
                keyed_rules(e@.requires.take(j as int + 1), k2, mk, dk).len() > 0 by {
                    lemma_keyed_take_step(e@.requires, j as int, k2, mk, dk);
                    if k2 != kv {
                        assert(has_bucket(prevb, k2));
                        assert(keyed_rules(e@.requires.take(j as int), k2, mk, dk).len() > 0);
                    } else {
                        assert(reqs_under(buckets@, kv) == keyed_rules(
                            e@.requires.take(j as int + 1),
                            kv,
                            mk,
                            dk,
                        ));
                    }
                }
            }
            j = j + 1;
        }
        proof {
            assert(e@.requires.take(e@.requires.len() as int) =~= e@.requires);
            assert(e@.excludes.take(0).len() == 0);
            assert forall|k2: Seq<char>| #[trigger] reqs_under(buckets@, k2) == keyed_rules(
                e@.requires,
                k2,
                mk,
                dk,
            ) by {
                assert(reqs_under(buckets@, k2) == keyed_rules(
                    e@.requires.take(e@.requires.len() as int),
                    k2,
                    mk,
                    dk,
                ));
            }
            assert forall|k2: Seq<char>| #[trigger] excs_under(buckets@, k2) == keyed_rules(
                e@.excludes.take(0),
                k2,
                mk,
                dk,
            ) by {
                assert(excs_under(buckets@, k2) == Seq::<RuleView>::empty());
            }
            assert forall|k2: Seq<char>| #[trigger] has_bucket(buckets@, k2) implies keyed_rules(
                e@.requires,
                k2,
                mk,
                dk,
            ).len() + keyed_rules(e@.excludes.take(0), k2, mk, dk).len() > 0 by {
                assert(keyed_rules(e@.requires.take(e@.requires.len() as int), k2, mk, dk).len()
                    > 0);
            }
        }
        let mut j: usize = 0;
        while j < e.excludes.len()
            invariant
                0 <= j <= e.excludes@.len(),
                mk == meta_key@,
                dk == default_meta_key@,
                esv == entities@,
                0 <= i < esv.len(),
                e@ == esv[i as int]@,
                e@.excludes.len() == e.excludes@.len(),
                buckets_keyed(buckets@, mk, dk),
                bucket_keys_unique(buckets@),
                forall|k2: Seq<char>| #[trigger] reqs_under(buckets@, k2) == keyed_rules(
                    e@.requires,
                    k2,
                    mk,
                    dk,
                ),
                forall|k2: Seq<char>| #[trigger] excs_under(buckets@, k2) == keyed_rules(
                    e@.excludes.take(j as int),
                    k2,
                    mk,
                    dk,
                ),
                forall|k2: Seq<char>| #[trigger] has_bucket(buckets@, k2) ==> keyed_rules(
                    e@.requires,
                    k2,
                    mk,
                    dk,
                ).len() + keyed_rules(e@.excludes.take(j as int), k2, mk, dk).len() > 0,
                forall|jj: int|
                    #![trigger e@.requires[jj]]
                    0 <= jj < e@.requires.len() ==> bucket_placed(
                        buckets@,
                        e@.requires[jj],
                        spec_rule_key(e@.requires[jj], mk, dk),
                        true,
                    ),
                forall|jj: int|
                    #![trigger e@.excludes[jj]]
                    0 <= jj < j ==> bucket_placed(
                        buckets@,
                        e@.excludes[jj],
                        spec_rule_key(e@.excludes[jj], mk, dk),
                        false,
                    ),
            decreases e.excludes@.len() - j,
        {
            proof {
                assert(e@.excludes[j as int] == e.excludes@[j as int]@);
            }
            let key = rule_key(&e.excludes[j], meta_key, default_meta_key);
            let rule = e.excludes[j].clone();
            proof {
                assert(mk == meta_key@ && dk == default_meta_key@);
                assert(rule@ == e.excludes@[j as int]@);
                assert(key@ == spec_rule_key(rule@, mk, dk));
            }
            let ghost prevb = buckets@;
            bucket_push(&mut buckets, key, rule, false, Ghost(mk), Ghost(dk));
            proof {
                let kv = spec_rule_key(e@.excludes[j as int], mk, dk);
                assert forall|k2: Seq<char>| #[trigger] excs_under(buckets@, k2) == keyed_rules(
                    e@.excludes.take(j as int + 1),
                    k2,
                    mk,
                    dk,
                ) by {
                    lemma_keyed_take_step(e@.excludes, j as int, k2, mk, dk);
                    if k2 == kv {
                        assert(excs_under(buckets@, kv) == excs_under(prevb, kv).push(
                            e@.excludes[j as int],
                        ));
                    } else {
                        assert(excs_under(buckets@, k2) == excs_under(prevb, k2));
                    }
                }
                assert forall|k2: Seq<char>| #[trigger] reqs_under(buckets@, k2) == keyed_rules(
                    e@.requires,
                    k2,
                    mk,
                    dk,
                ) by {
                    if k2 == kv {
                        assert(reqs_under(buckets@, kv) == reqs_under(prevb, kv));
                    } else {
                        assert(reqs_under(buckets@, k2) == reqs_under(prevb, k2));
                    }
                }
                assert forall|k2: Seq<char>| #[trigger] has_bucket(buckets@, k2) implies
                keyed_rules(e@.requires, k2, mk, dk).len() + keyed_rules(
                    e@.excludes.take(j as int + 1),
                    k2,
                    mk,
                    dk,
                ).len() > 0 by {
                    lemma_keyed_take_step(e@.excludes, j as int, k2, mk, dk);
                    if k2 != kv {
                        assert(has_bucket(prevb, k2));
                        assert(keyed_rules(e@.requires, k2, mk, dk).len() + keyed_rules(
                            e@.excludes.take(j as int),
                            k2,
                            mk,
                            dk,
                        ).len() > 0);
                    }
                }
            }
            j = j + 1;
        }
        proof {
            assert(e@.excludes.take(e@.excludes.len() as int) =~= e@.excludes);
            assert forall|bi: int| 0 <= bi < buckets@.len() implies dv_rules(
                (#[trigger] buckets@[bi]).1@,
            ) == keyed_rules(e@.requires, buckets@[bi].0@, mk, dk) && dv_rules(buckets@[bi].2@)
                == keyed_rules(e@.excludes, buckets@[bi].0@, mk, dk) && dv_rules(
                buckets@[bi].1@,
            ).len() + dv_rules(buckets@[bi].2@).len() > 0 by {
                lemma_bucket_index_is(buckets@, buckets@[bi].0@, bi);
                assert(reqs_under(buckets@, buckets@[bi].0@) == keyed_rules(
                    e@.requires,
                    buckets@[bi].0@,
                    mk,
                    dk,
                ));
                assert(excs_under(buckets@, buckets@[bi].0@) == keyed_rules(
                    e@.excludes.take(e@.excludes.len() as int),
                    buckets@[bi].0@,
                    mk,
                    dk,
                ));
                assert(has_bucket(buckets@, buckets@[bi].0@));
                assert(keyed_rules(e@.requires, buckets@[bi].0@, mk, dk).len() + keyed_rules(
                    e@.excludes.take(e@.excludes.len() as int),
                    buckets@[bi].0@,
                    mk,
                    dk,
                ).len() > 0);
            }
        }
        // Flush the buckets into the groups. A rule placed in a bucket stays
        // placed either in the remaining buckets or in the groups.
        let mut rest = buckets;
        while rest.len() > 0
            invariant
                mk == meta_key@,
                dk == default_meta_key@,
                esv == entities@,
                0 <= i < esv.len(),
                e@ == esv[i as int]@,
                groups_keyed(groups@, mk, dk),
                group_keys_unique(groups@),
                buckets_keyed(rest@, mk, dk),
                split_complete(groups@, esv, i as int, mk, dk),
                split_exact(groups@, esv, mk, dk),
                forall|bi: int|
                    0 <= bi < rest@.len() ==> dv_rules((#[trigger] rest@[bi]).1@) == keyed_rules(
                        e@.requires,
                        rest@[bi].0@,
                        mk,
                        dk,
                    ) && dv_rules(rest@[bi].2@) == keyed_rules(e@.excludes, rest@[bi].0@, mk, dk)
                        && dv_rules(rest@[bi].1@).len() + dv_rules(rest@[bi].2@).len() > 0,
                forall|jj: int|
                    #![trigger e@.requires[jj]]
                    0 <= jj < e@.requires.len() ==> bucket_placed(
                        rest@,
                        e@.requires[jj],
                        spec_rule_key(e@.requires[jj], mk, dk),
                        true,
                    ) || rule_placed(
                        groups@,
                        e@.name,
                        e@.requires[jj],
                        spec_rule_key(e@.requires[jj], mk, dk),
                        true,
                    ),
                forall|jj: int|
                    #![trigger e@.excludes[jj]]
                    0 <= jj < e@.excludes.len() ==> bucket_placed(
                        rest@,
                        e@.excludes[jj],
                        spec_rule_key(e@.excludes[jj], mk, dk),
                        false,
                    ) || rule_placed(
                        groups@,
                        e@.name,
                        e@.excludes[jj],
                        spec_rule_key(e@.excludes[jj], mk, dk),
                        false,
                    ),
            decreases rest@.len(),
        {
            let ghost prevrest = rest@;
            let bucket = rest.remove(0);
            proof {
                assert(prevrest[0] == bucket);
                assert forall|bi: int, j: int|
                    #![trigger dv_rules(rest@[bi].1@)[j]]
                    0 <= bi < rest@.len() && 0 <= j < dv_rules(rest@[bi].1@).len() implies
                    spec_rule_key(dv_rules(rest@[bi].1@)[j], mk, dk) == rest@[bi].0@ by {
                    assert(rest@[bi] == prevrest[bi + 1]);
                }
                assert forall|bi: int, j: int|
                    #![trigger dv_rules(rest@[bi].2@)[j]]
                    0 <= bi < rest@.len() && 0 <= j < dv_rules(rest@[bi].2@).len() implies
                    spec_rule_key(dv_rules(rest@[bi].2@)[j], mk, dk) == rest@[bi].0@ by {
                    assert(rest@[bi] == prevrest[bi + 1]);
                }
                assert forall|bi: int| 0 <= bi < rest@.len() implies dv_rules(
                    (#[trigger] rest@[bi]).1@,
                ) == keyed_rules(e@.requires, rest@[bi].0@, mk, dk) && dv_rules(rest@[bi].2@)
                    == keyed_rules(e@.excludes, rest@[bi].0@, mk, dk) && dv_rules(
                    rest@[bi].1@,
                ).len() + dv_rules(rest@[bi].2@).len() > 0 by {
                    assert(rest@[bi] == prevrest[bi + 1]);
                    assert(dv_rules((#[trigger] prevrest[bi + 1]).1@) == keyed_rules(
                        e@.requires,
                        prevrest[bi + 1].0@,
                        mk,
                        dk,
                    ));
                }
                assert(dv_rules(prevrest[0].1@) == keyed_rules(
                    e@.requires,
                    prevrest[0].0@,
                    mk,
                    dk,
                ));
                assert(dv_rules(bucket.1@) == keyed_rules(e@.requires, bucket.0@, mk, dk));
                assert(dv_rules(bucket.2@) == keyed_rules(e@.excludes, bucket.0@, mk, dk));
                assert(dv_rules(bucket.1@).len() + dv_rules(bucket.2@).len() > 0);
            }
            let ne = Entity {
                name: entities[i].name.clone(),
                requires: crate::model::rule::canon_rules_vec(bucket.1),
                excludes: crate::model::rule::canon_rules_vec(bucket.2),
                source: entities[i].source.clone(),
                priority: entities[i].priority,
            };
            proof {
                assert(ne@.name == e@.name) by {
                    assert(esv[i as int]@.name == entities@[i as int]@.name);
                }
                assert(entity_keyed(ne@, bucket.0@, mk, dk)) by {
                    assert forall|j: int|
                        0 <= j < ne@.requires.len() implies spec_rule_key(
                        #[trigger] ne@.requires[j],
                        mk,
                        dk,
                    ) == bucket.0@ by {
                        crate::model::rule::lemma_canon_rules_membership(
                            dv_rules(bucket.1@),
                            ne@.requires[j],
                        );
                        assert(ne@.requires.contains(ne@.requires[j]));
                        let w = choose|w: int|
                            0 <= w < dv_rules(bucket.1@).len() && dv_rules(bucket.1@)[w]
                                == ne@.requires[j];
                    }
                    assert forall|j: int|
                        0 <= j < ne@.excludes.len() implies spec_rule_key(
                        #[trigger] ne@.excludes[j],
                        mk,
                        dk,
                    ) == bucket.0@ by {
                        crate::model::rule::lemma_canon_rules_membership(
                            dv_rules(bucket.2@),
                            ne@.excludes[j],
                        );
                        assert(ne@.excludes.contains(ne@.excludes[j]));
                        let w = choose|w: int|
                            0 <= w < dv_rules(bucket.2@).len() && dv_rules(bucket.2@)[w]
                                == ne@.excludes[j];
                    }
                }
                // Everything the flushed bucket held stands in the copy.
                assert forall|rv: RuleView|
                    dv_rules(bucket.1@).contains(rv) implies #[trigger] ne@.requires.contains(
                    rv,
                ) by {
                    crate::model::rule::lemma_canon_rules_membership(dv_rules(bucket.1@), rv);
                }
                assert forall|rv: RuleView|
                    dv_rules(bucket.2@).contains(rv) implies #[trigger] ne@.excludes.contains(
                    rv,
                ) by {
                    crate::model::rule::lemma_canon_rules_membership(dv_rules(bucket.2@), rv);
                }
                // The copy is exactly the entity's restriction to the key.
                assert(ne@.requires == crate::model::rule::canon_rules(dv_rules(bucket.1@)));
                assert(ne@.excludes == crate::model::rule::canon_rules(dv_rules(bucket.2@)));
                if dv_rules(bucket.1@).len() > 0 {
                    lemma_canon_rules_keeps_some(dv_rules(bucket.1@));
                } else {
                    lemma_canon_rules_keeps_some(dv_rules(bucket.2@));
                }
                assert(esv[i as int]@ == entities@[i as int]@);
                assert(ne@.source == esv[i as int]@.source);
                assert(ne@.priority == esv[i as int]@.priority);
                assert(entity_restricted(ne@, esv[i as int]@, bucket.0@, mk, dk));
            }
            let ghost prevgroups = groups@;
            let ghost nev = ne@;
            group_push(&mut groups, bucket.0, ne, Ghost(mk), Ghost(dk));
            proof {
                lemma_flush_preserves(
                    prevgroups,
                    groups@,
                    prevrest,
                    rest@,
                    esv,
                    i as int,
                    e@,
                    (bucket.0@, dv_rules(bucket.1@), dv_rules(bucket.2@)),
                    ne@,
                    mk,
                    dk,
                );
                assert forall|g: int, ee: int|
                    #![trigger groups@[g].1@[ee]]
                    0 <= g < groups@.len() && 0 <= ee < groups@[g].1@.len() implies exists|i2: int|
                    0 <= i2 < esv.len() && entity_restricted(
                        groups@[g].1@[ee]@,
                        esv[i2]@,
                        groups@[g].0@,
                        mk,
                        dk,
                    ) by {
                    if g < prevgroups.len() && ee < prevgroups[g].1@.len()
                        && groups@[g].1@[ee] == prevgroups[g].1@[ee] && groups@[g].0@
                        == prevgroups[g].0@ {
                        assert(prevgroups[g].1@[ee] == groups@[g].1@[ee]);
                        let i2 = choose|i2: int|
                            0 <= i2 < esv.len() && entity_restricted(
                                prevgroups[g].1@[ee]@,
                                esv[i2]@,
                                prevgroups[g].0@,
                                mk,
                                dk,
                            );
                        assert(entity_restricted(
                            groups@[g].1@[ee]@,
                            esv[i2]@,
                            groups@[g].0@,
                            mk,
                            dk,
                        ));
                    } else {
                        assert(groups@[g].1@[ee]@ == nev && groups@[g].0@ == bucket.0@);
                        assert(entity_restricted(
                            groups@[g].1@[ee]@,
                            esv[i as int]@,
                            groups@[g].0@,
                            mk,
                            dk,
                        ));
                    }
                }
            }
        }
        proof {
            assert forall|jj: int|
                #![trigger e@.requires[jj]]
                0 <= jj < e@.requires.len() implies rule_placed(
                groups@,
                esv[i as int]@.name,
                esv[i as int]@.requires[jj],
                spec_rule_key(esv[i as int]@.requires[jj], mk, dk),
                true,
            ) by {
                if bucket_placed(
                    rest@,
                    e@.requires[jj],
                    spec_rule_key(e@.requires[jj], mk, dk),
                    true,
                ) {
                    let bi = choose|bi: int|
                        0 <= bi < rest@.len() && (#[trigger] rest@[bi]).0@ == spec_rule_key(
                            e@.requires[jj],
                            mk,
                            dk,
                        ) && dv_rules(rest@[bi].1@).contains(e@.requires[jj]);
                    assert(false);
                }
            }
            assert forall|jj: int|
                #![trigger e@.excludes[jj]]
                0 <= jj < e@.excludes.len() implies rule_placed(
                groups@,
                esv[i as int]@.name,
                esv[i as int]@.excludes[jj],
                spec_rule_key(esv[i as int]@.excludes[jj], mk, dk),
                false,
            ) by {
                if bucket_placed(
                    rest@,
                    e@.excludes[jj],
                    spec_rule_key(e@.excludes[jj], mk, dk),
                    false,
                ) {
                    let bi = choose|bi: int|
                        0 <= bi < rest@.len() && (#[trigger] rest@[bi]).0@ == spec_rule_key(
                            e@.excludes[jj],
                            mk,
                            dk,
                        ) && dv_rules(rest@[bi].2@).contains(e@.excludes[jj]);
                    assert(false);
                }
            }
        }
        i = i + 1;
    }
    groups
}

/// Carries placements across one flush step: what sat in the flushed bucket
/// now sits in the groups; what sat in another bucket still does.
proof fn lemma_flush_preserves(
    prevgroups: Seq<(String, Vec<Entity>)>,
    groups: Seq<(String, Vec<Entity>)>,
    prevrest: Seq<(String, Vec<EntityRule>, Vec<EntityRule>)>,
    rest: Seq<(String, Vec<EntityRule>, Vec<EntityRule>)>,
    esv: Seq<Entity>,
    i: int,
    e: crate::model::entity::EntityView,
    bucket: (Seq<char>, Seq<RuleView>, Seq<RuleView>),
    ne: crate::model::entity::EntityView,
    mk: Seq<char>,
    dk: Seq<char>,
)
    requires
        prevrest.len() > 0,
        rest.len() == prevrest.len() - 1,
        forall|bi: int| 0 <= bi < rest.len() ==> #[trigger] rest[bi] == prevrest[bi + 1],
        bucket == ((#[trigger] prevrest[0]).0@, dv_rules(prevrest[0].1@), dv_rules(
            prevrest[0].2@,
        )),
        ne.name == e.name,
        forall|rv: RuleView| bucket.1.contains(rv) ==> #[trigger] ne.requires.contains(rv),
        forall|rv: RuleView| bucket.2.contains(rv) ==> #[trigger] ne.excludes.contains(rv),
        group_placed_entity(groups, bucket.0, ne),
        forall|g: int|
            0 <= g < prevgroups.len() ==> #[trigger] groups[g].0@ == prevgroups[g].0@ && (forall|
                ee: int,
            |
                0 <= ee < prevgroups[g].1@.len() ==> #[trigger] groups[g].1@[ee]
                    == prevgroups[g].1@[ee]) && groups[g].1@.len() >= prevgroups[g].1@.len(),
        groups.len() >= prevgroups.len(),
        split_complete(prevgroups, esv, i, mk, dk),
        0 <= i < esv.len(),
        e == esv[i]@,
        forall|jj: int|
            #![trigger e.requires[jj]]
            0 <= jj < e.requires.len() ==> bucket_placed(
                prevrest,
                e.requires[jj],
                spec_rule_key(e.requires[jj], mk, dk),
                true,
            ) || rule_placed(prevgroups, e.name, e.requires[jj], spec_rule_key(e.requires[jj], mk, dk), true),
        forall|jj: int|
            #![trigger e.excludes[jj]]
            0 <= jj < e.excludes.len() ==> bucket_placed(
                prevrest,
                e.excludes[jj],
                spec_rule_key(e.excludes[jj], mk, dk),
                false,
            ) || rule_placed(prevgroups, e.name, e.excludes[jj], spec_rule_key(e.excludes[jj], mk, dk), false),
    ensures
        split_complete(groups, esv, i, mk, dk),
        forall|jj: int|
            #![trigger e.requires[jj]]
            0 <= jj < e.requires.len() ==> bucket_placed(
                rest,
                e.requires[jj],
                spec_rule_key(e.requires[jj], mk, dk),
                true,
            ) || rule_placed(groups, e.name, e.requires[jj], spec_rule_key(e.requires[jj], mk, dk), true),
        forall|jj: int|
            #![trigger e.excludes[jj]]
            0 <= jj < e.excludes.len() ==> bucket_placed(
                rest,
                e.excludes[jj],
                spec_rule_key(e.excludes[jj], mk, dk),
                false,
            ) || rule_placed(groups, e.name, e.excludes[jj], spec_rule_key(e.excludes[jj], mk, dk), false),
{
    assert forall|ename: Seq<char>, rv: RuleView, k: Seq<char>, req: bool|
        #[trigger] rule_placed(prevgroups, ename, rv, k, req) implies rule_placed(
        groups,
        ename,
        rv,
        k,
        req,
    ) by {
        let (g, ee) = choose|g: int, ee: int|
            #![trigger prevgroups[g].1@[ee]]
            0 <= g < prevgroups.len() && prevgroups[g].0@ == k && 0 <= ee < prevgroups[g].1@.len()
                && prevgroups[g].1@[ee]@.name == ename && (if req {
                prevgroups[g].1@[ee]@.requires.contains(rv)
            } else {
                prevgroups[g].1@[ee]@.excludes.contains(rv)
            });
        assert(groups[g].0@ == prevgroups[g].0@);
        assert(groups[g].0@ == k);
        assert(groups[g].1@[ee] == prevgroups[g].1@[ee]);
    }
    let (gg, ge) = choose|gg: int, ge: int|
        #![trigger groups[gg].1@[ge]]
        0 <= gg < groups.len() && groups[gg].0@ == bucket.0 && 0 <= ge < groups[gg].1@.len()
            && groups[gg].1@[ge]@ == ne;
    assert forall|jj: int|
        #![trigger e.requires[jj]]
        0 <= jj < e.requires.len() implies bucket_placed(
        rest,
        e.requires[jj],
        spec_rule_key(e.requires[jj], mk, dk),
        true,
    ) || rule_placed(groups, e.name, e.requires[jj], spec_rule_key(e.requires[jj], mk, dk), true) by {
        let k = spec_rule_key(e.requires[jj], mk, dk);
        if bucket_placed(prevrest, e.requires[jj], k, true) {
            let bi = choose|bi: int|
                0 <= bi < prevrest.len() && (#[trigger] prevrest[bi]).0@ == k && dv_rules(
                    prevrest[bi].1@,
                ).contains(e.requires[jj]);
            if bi == 0 {
                assert(bucket.1.contains(e.requires[jj]));
                assert(ne.requires.contains(e.requires[jj]));
                assert(rule_placed(groups, e.name, e.requires[jj], k, true)) by {
                    assert(groups[gg].1@[ge]@.requires.contains(e.requires[jj]));
                }
            } else {
                assert(rest[bi - 1] == prevrest[bi]);
                assert(bucket_placed(rest, e.requires[jj], k, true)) by {
                    assert((#[trigger] rest[bi - 1]).0@ == k && dv_rules(
                        rest[bi - 1].1@,
                    ).contains(e.requires[jj]));
                }
            }
        }
    }
    assert forall|jj: int|
        #![trigger e.excludes[jj]]
        0 <= jj < e.excludes.len() implies bucket_placed(
        rest,
        e.excludes[jj],
        spec_rule_key(e.excludes[jj], mk, dk),
        false,
    ) || rule_placed(groups, e.name, e.excludes[jj], spec_rule_key(e.excludes[jj], mk, dk), false) by {
        let k = spec_rule_key(e.excludes[jj], mk, dk);
        if bucket_placed(prevrest, e.excludes[jj], k, false) {
            let bi = choose|bi: int|
                0 <= bi < prevrest.len() && (#[trigger] prevrest[bi]).0@ == k && dv_rules(
                    prevrest[bi].2@,
                ).contains(e.excludes[jj]);
            if bi == 0 {
                assert(bucket.2.contains(e.excludes[jj]));
                assert(ne.excludes.contains(e.excludes[jj]));
                assert(rule_placed(groups, e.name, e.excludes[jj], k, false)) by {
                    assert(groups[gg].1@[ge]@.excludes.contains(e.excludes[jj]));
                }
            } else {
                assert(rest[bi - 1] == prevrest[bi]);
                assert(bucket_placed(rest, e.excludes[jj], k, false)) by {
                    assert((#[trigger] rest[bi - 1]).0@ == k && dv_rules(
                        rest[bi - 1].2@,
                    ).contains(e.excludes[jj]));
                }
            }
        }
    }
}

/// Some group keyed `k` holds an entity with this view.
pub open spec fn group_placed_entity(
    groups: Seq<(String, Vec<Entity>)>,
    k: Seq<char>,
    ne: crate::model::entity::EntityView,
) -> bool {
    exists|g: int, ee: int|
        #![trigger groups[g].1@[ee]]
        0 <= g < groups.len() && groups[g].0@ == k && 0 <= ee < groups[g].1@.len()
            && groups[g].1@[ee]@ == ne
}

/// Every bucket holds only rules of its key.
pub open spec fn buckets_keyed(
    buckets: Seq<(String, Vec<EntityRule>, Vec<EntityRule>)>,
    mk: Seq<char>,
    dk: Seq<char>,
) -> bool {
    &&& forall|bi: int, j: int|
        #![trigger dv_rules(buckets[bi].1@)[j]]
        0 <= bi < buckets.len() && 0 <= j < dv_rules(buckets[bi].1@).len() ==> spec_rule_key(
            dv_rules(buckets[bi].1@)[j],
            mk,
            dk,
        ) == buckets[bi].0@
    &&& forall|bi: int, j: int|
        #![trigger dv_rules(buckets[bi].2@)[j]]
        0 <= bi < buckets.len() && 0 <= j < dv_rules(buckets[bi].2@).len() ==> spec_rule_key(
            dv_rules(buckets[bi].2@)[j],
            mk,
            dk,
        ) == buckets[bi].0@
}

/// Adds one rule to its key's bucket, creating the bucket on first sight.
fn bucket_push(
    buckets: &mut Vec<(String, Vec<EntityRule>, Vec<EntityRule>)>,
    key: String,
    rule: EntityRule,
    into_requires: bool,
    Ghost(mk): Ghost<Seq<char>>,
    Ghost(dk): Ghost<Seq<char>>,
)
    requires
        buckets_keyed(old(buckets)@, mk, dk),
        bucket_keys_unique(old(buckets)@),
        spec_rule_key(rule@, mk, dk) == key@,
    ensures
        buckets_keyed(final(buckets)@, mk, dk),
        bucket_keys_unique(final(buckets)@),
        bucket_placed(final(buckets)@, rule@, key@, into_requires),
        forall|rv: RuleView, k: Seq<char>, req: bool|
            bucket_placed(old(buckets)@, rv, k, req) ==> #[trigger] bucket_placed(
                final(buckets)@,
                rv,
                k,
                req,
            ),
        forall|k2: Seq<char>|
            #[trigger] has_bucket(final(buckets)@, k2) <==> has_bucket(old(buckets)@, k2) || k2
                == key@,
        into_requires ==> reqs_under(final(buckets)@, key@) == reqs_under(
            old(buckets)@,
            key@,
        ).push(rule@) && excs_under(final(buckets)@, key@) == excs_under(old(buckets)@, key@),
        !into_requires ==> excs_under(final(buckets)@, key@) == excs_under(
            old(buckets)@,
            key@,
        ).push(rule@) && reqs_under(final(buckets)@, key@) == reqs_under(old(buckets)@, key@),
        forall|k2: Seq<char>|
            #![trigger reqs_under(final(buckets)@, k2)]
            #![trigger excs_under(final(buckets)@, k2)]
            k2 != key@ ==> reqs_under(final(buckets)@, k2) == reqs_under(old(buckets)@, k2)
                && excs_under(final(buckets)@, k2) == excs_under(old(buckets)@, k2),
{
    let n = buckets.len();
    let mut bi: usize = 0;
    while bi < n
        invariant_except_break
            0 <= bi <= n,
            n == buckets@.len(),
            buckets@ == old(buckets)@,
            forall|b2: int| 0 <= b2 < bi ==> (#[trigger] buckets@[b2]).0@ != key@,
        ensures
            buckets@ == old(buckets)@,
            bi <= n,
            bi < n ==> buckets@[bi as int].0@ == key@,
            bi == n ==> forall|b2: int| 0 <= b2 < n ==> (#[trigger] buckets@[b2]).0@ != key@,
        decreases n - bi,
    {
        if eq_str(buckets[bi].0.as_str(), key.as_str()) {
            break ;
        }
        bi = bi + 1;
    }
    if bi < n {
        let mut entry = buckets.remove(bi);
        let ghost prevreq = dv_rules(entry.1@);
        let ghost prevexc = dv_rules(entry.2@);
        if into_requires {
            entry.1.push(rule);
        } else {
            entry.2.push(rule);
        }
        let ghost newentry = entry;
        buckets.insert(bi, entry);
        proof {
            assert(dv_rules(newentry.1@) =~= if into_requires {
                prevreq.push(rule@)
            } else {
                prevreq
            });
            assert(dv_rules(newentry.2@) =~= if into_requires {
                prevexc
            } else {
                prevexc.push(rule@)
            });
            assert forall|b2: int, j: int|
                #![trigger dv_rules(buckets@[b2].1@)[j]]
                0 <= b2 < buckets@.len() && 0 <= j < dv_rules(buckets@[b2].1@).len() implies
                spec_rule_key(dv_rules(buckets@[b2].1@)[j], mk, dk) == buckets@[b2].0@ by {
                if b2 != bi {
                    assert(buckets@[b2] == old(buckets)@[b2]);
                } else {
                    assert(buckets@[b2] == newentry);
                    if into_requires && j == prevreq.len() {
                        assert(dv_rules(buckets@[b2].1@)[j] == rule@);
                    } else {
                        assert(dv_rules(buckets@[b2].1@)[j] == dv_rules(
                            old(buckets)@[bi as int].1@,
                        )[j]);
                    }
                }
            }
            assert forall|b2: int, j: int|
                #![trigger dv_rules(buckets@[b2].2@)[j]]
                0 <= b2 < buckets@.len() && 0 <= j < dv_rules(buckets@[b2].2@).len() implies
                spec_rule_key(dv_rules(buckets@[b2].2@)[j], mk, dk) == buckets@[b2].0@ by {
                if b2 != bi {
                    assert(buckets@[b2] == old(buckets)@[b2]);
                } else {
                    assert(buckets@[b2] == newentry);
                    if !into_requires && j == prevexc.len() {
                        assert(dv_rules(buckets@[b2].2@)[j] == rule@);
                    } else {
                        assert(dv_rules(buckets@[b2].2@)[j] == dv_rules(
                            old(buckets)@[bi as int].2@,
                        )[j]);
                    }
                }
            }
            assert(bucket_placed(buckets@, rule@, key@, into_requires)) by {
                assert(buckets@[bi as int] == newentry);
                if into_requires {
                    assert(dv_rules(buckets@[bi as int].1@)[prevreq.len() as int] == rule@);
                    assert(dv_rules(buckets@[bi as int].1@).contains(rule@));
                } else {
                    assert(dv_rules(buckets@[bi as int].2@)[prevexc.len() as int] == rule@);
                    assert(dv_rules(buckets@[bi as int].2@).contains(rule@));
                }
            }
            assert forall|rv: RuleView, k: Seq<char>, req: bool|
                bucket_placed(old(buckets)@, rv, k, req) implies #[trigger] bucket_placed(
                buckets@,
                rv,
                k,
                req,
            ) by {
                let b2 = choose|b2: int|
                    0 <= b2 < old(buckets)@.len() && (#[trigger] old(buckets)@[b2]).0@ == k && (
                    if req {
                        dv_rules(old(buckets)@[b2].1@).contains(rv)
                    } else {
                        dv_rules(old(buckets)@[b2].2@).contains(rv)
                    });
                if b2 != bi {
                    assert(buckets@[b2] == old(buckets)@[b2]);
                    assert((#[trigger] buckets@[b2]).0@ == k);
                } else {
                    assert(buckets@[b2] == newentry);
                    assert(newentry.0@ == old(buckets)@[bi as int].0@);
                    if req {
                        let w = choose|w: int|
                            0 <= w < dv_rules(old(buckets)@[b2].1@).len() && dv_rules(
                                old(buckets)@[b2].1@,
                            )[w] == rv;
                        assert(dv_rules(buckets@[b2].1@)[w] == rv);
                        assert(dv_rules(buckets@[b2].1@).contains(rv));
                    } else {
                        let w = choose|w: int|
                            0 <= w < dv_rules(old(buckets)@[b2].2@).len() && dv_rules(
                                old(buckets)@[b2].2@,
                            )[w] == rv;
                        assert(dv_rules(buckets@[b2].2@)[w] == rv);
                        assert(dv_rules(buckets@[b2].2@).contains(rv));
                    }
                }
            }
            assert(buckets@.len() == old(buckets)@.len());
            assert forall|b2: int| 0 <= b2 < buckets@.len() implies (#[trigger] buckets@[b2]).0@
                == old(buckets)@[b2].0@ by {
                if b2 != bi {
                    assert(buckets@[b2] == old(buckets)@[b2]);
                } else {
                    assert(buckets@[b2] == newentry);
                }
            }
            assert(bucket_keys_unique(buckets@)) by {
                assert forall|b1: int, b2: int| 0 <= b1 < b2 < buckets@.len() implies (
                #[trigger] buckets@[b1]).0@ != (#[trigger] buckets@[b2]).0@ by {
                    assert(buckets@[b1].0@ == old(buckets)@[b1].0@);
                    assert(buckets@[b2].0@ == old(buckets)@[b2].0@);
                }
            }
            assert forall|k2: Seq<char>|
                #[trigger] has_bucket(buckets@, k2) <==> has_bucket(old(buckets)@, k2) || k2
                    == key@ by {
                if has_bucket(buckets@, k2) {
                    let w = choose|w: int|
                        0 <= w < buckets@.len() && (#[trigger] buckets@[w]).0@ == k2;
                    assert((#[trigger] old(buckets)@[w]).0@ == k2);
                }
                if has_bucket(old(buckets)@, k2) {
                    let w = choose|w: int|
                        0 <= w < old(buckets)@.len() && (#[trigger] old(buckets)@[w]).0@ == k2;
                    assert((#[trigger] buckets@[w]).0@ == k2);
                }
                if k2 == key@ {
                    assert((#[trigger] buckets@[bi as int]).0@ == k2);
                }
            }
            lemma_bucket_index_is(old(buckets)@, key@, bi as int);
            lemma_bucket_index_is(buckets@, key@, bi as int);
            assert(reqs_under(old(buckets)@, key@) == prevreq);
            assert(excs_under(old(buckets)@, key@) == prevexc);
            assert(reqs_under(buckets@, key@) == dv_rules(newentry.1@));
            assert(excs_under(buckets@, key@) == dv_rules(newentry.2@));
            assert forall|k2: Seq<char>|
                k2 != key@ implies #[trigger] reqs_under(buckets@, k2) == reqs_under(
                old(buckets)@,
                k2,
            ) && excs_under(buckets@, k2) == excs_under(old(buckets)@, k2) by {
                if has_bucket(old(buckets)@, k2) {
                    let w = choose|w: int|
                        0 <= w < old(buckets)@.len() && (#[trigger] old(buckets)@[w]).0@ == k2;
                    assert(w != bi);
                    assert(buckets@[w] == old(buckets)@[w]);
                    lemma_bucket_index_is(old(buckets)@, k2, w);
                    lemma_bucket_index_is(buckets@, k2, w);
                } else {
                    if has_bucket(buckets@, k2) {
                        let w = choose|w: int|
                            0 <= w < buckets@.len() && (#[trigger] buckets@[w]).0@ == k2;
                        assert((#[trigger] old(buckets)@[w]).0@ == k2);
                        assert(false);
                    }
                }
            }
        }
    } else {
        let mut reqs: Vec<EntityRule> = Vec::new();
        let mut excs: Vec<EntityRule> = Vec::new();
        if into_requires {
            reqs.push(rule);
        } else {
            excs.push(rule);
        }
        let ghost prevbuckets = buckets@;
        buckets.push((key, reqs, excs));
        proof {
            assert forall|b2: int, j: int|
                #![trigger dv_rules(buckets@[b2].1@)[j]]
                0 <= b2 < buckets@.len() && 0 <= j < dv_rules(buckets@[b2].1@).len() implies
                spec_rule_key(dv_rules(buckets@[b2].1@)[j], mk, dk) == buckets@[b2].0@ by {
                if b2 < prevbuckets.len() {
                    assert(buckets@[b2] == prevbuckets[b2]);
                } else {
                    assert(dv_rules(buckets@[b2].1@)[j] == rule@);
                }
            }
            assert forall|b2: int, j: int|
                #![trigger dv_rules(buckets@[b2].2@)[j]]
                0 <= b2 < buckets@.len() && 0 <= j < dv_rules(buckets@[b2].2@).len() implies
                spec_rule_key(dv_rules(buckets@[b2].2@)[j], mk, dk) == buckets@[b2].0@ by {
                if b2 < prevbuckets.len() {
                    assert(buckets@[b2] == prevbuckets[b2]);
                } else {
                    assert(dv_rules(buckets@[b2].2@)[j] == rule@);
                }
            }
            assert(bucket_placed(buckets@, rule@, key@, into_requires)) by {
                let b2 = prevbuckets.len() as int;
                assert((#[trigger] buckets@[b2]).0@ == key@);
                if into_requires {
                    assert(dv_rules(buckets@[b2].1@)[0] == rule@);
                    assert(dv_rules(buckets@[b2].1@).contains(rule@));
                } else {
                    assert(dv_rules(buckets@[b2].2@)[0] == rule@);
                    assert(dv_rules(buckets@[b2].2@).contains(rule@));
                }
            }
            assert forall|rv: RuleView, k: Seq<char>, req: bool|
                bucket_placed(old(buckets)@, rv, k, req) implies #[trigger] bucket_placed(
                buckets@,
                rv,
                k,
                req,
            ) by {
                let b2 = choose|b2: int|
                    0 <= b2 < old(buckets)@.len() && (#[trigger] old(buckets)@[b2]).0@ == k && (
                    if req {
                        dv_rules(old(buckets)@[b2].1@).contains(rv)
                    } else {
                        dv_rules(old(buckets)@[b2].2@).contains(rv)
                    });
                assert(buckets@[b2] == prevbuckets[b2]);
                assert((#[trigger] buckets@[b2]).0@ == k);
            }
            assert(!has_bucket(old(buckets)@, key@)) by {
                if has_bucket(old(buckets)@, key@) {
                    let w = choose|w: int|
                        0 <= w < old(buckets)@.len() && (#[trigger] old(buckets)@[w]).0@ == key@;
                }
            }
            assert(buckets@[prevbuckets.len() as int].0@ == key@);
            assert(bucket_keys_unique(buckets@)) by {
                assert forall|b1: int, b2: int| 0 <= b1 < b2 < buckets@.len() implies (
                #[trigger] buckets@[b1]).0@ != (#[trigger] buckets@[b2]).0@ by {
                    if b2 < prevbuckets.len() {
                        assert(buckets@[b1] == prevbuckets[b1]);
                        assert(buckets@[b2] == prevbuckets[b2]);
                    } else {
                        assert(buckets@[b1] == prevbuckets[b1]);
                        assert((#[trigger] prevbuckets[b1]).0@ != key@);
                    }
                }
            }
            assert forall|k2: Seq<char>|
                #[trigger] has_bucket(buckets@, k2) <==> has_bucket(old(buckets)@, k2) || k2
                    == key@ by {
                if has_bucket(buckets@, k2) && k2 != key@ {
                    let w = choose|w: int|
                        0 <= w < buckets@.len() && (#[trigger] buckets@[w]).0@ == k2;
                    assert(w < prevbuckets.len());
                    assert((#[trigger] old(buckets)@[w]).0@ == k2);
                }
                if has_bucket(old(buckets)@, k2) {
                    let w = choose|w: int|
                        0 <= w < old(buckets)@.len() && (#[trigger] old(buckets)@[w]).0@ == k2;
                    assert((#[trigger] buckets@[w]).0@ == k2);
                }
                if k2 == key@ {
                    assert((#[trigger] buckets@[prevbuckets.len() as int]).0@ == k2);
                }
            }
            lemma_bucket_index_is(buckets@, key@, prevbuckets.len() as int);
            assert(reqs_under(old(buckets)@, key@) == Seq::<RuleView>::empty());
            assert(excs_under(old(buckets)@, key@) == Seq::<RuleView>::empty());
            if into_requires {
                assert(dv_rules(buckets@[prevbuckets.len() as int].1@) =~= Seq::<
                    RuleView,
                >::empty().push(rule@));
                assert(dv_rules(buckets@[prevbuckets.len() as int].2@) =~= Seq::<
                    RuleView,
                >::empty());
            } else {
                assert(dv_rules(buckets@[prevbuckets.len() as int].1@) =~= Seq::<
                    RuleView,
                >::empty());
                assert(dv_rules(buckets@[prevbuckets.len() as int].2@) =~= Seq::<
                    RuleView,
                >::empty().push(rule@));
            }
            assert forall|k2: Seq<char>|
                k2 != key@ implies #[trigger] reqs_under(buckets@, k2) == reqs_under(
                old(buckets)@,
                k2,
            ) && excs_under(buckets@, k2) == excs_under(old(buckets)@, k2) by {
                if has_bucket(old(buckets)@, k2) {
                    let w = choose|w: int|
                        0 <= w < old(buckets)@.len() && (#[trigger] old(buckets)@[w]).0@ == k2;
                    assert(buckets@[w] == prevbuckets[w]);
                    lemma_bucket_index_is(old(buckets)@, k2, w);
                    lemma_bucket_index_is(buckets@, k2, w);
                } else {
                    if has_bucket(buckets@, k2) {
                        let w = choose|w: int|
                            0 <= w < buckets@.len() && (#[trigger] buckets@[w]).0@ == k2;
                        if w < prevbuckets.len() {
                            assert((#[trigger] old(buckets)@[w]).0@ == k2);
                        }
                        assert(false);
                    }
                }
            }
        }
    }
}

/// Appends an entity to its key's group, creating the group on first sight.
fn group_push(
    groups: &mut Vec<(String, Vec<Entity>)>,
    key: String,
    e: Entity,
    Ghost(mk): Ghost<Seq<char>>,
    Ghost(dk): Ghost<Seq<char>>,
)
    requires
        groups_keyed(old(groups)@, mk, dk),
        group_keys_unique(old(groups)@),
        entity_keyed(e@, key@, mk, dk),
    ensures
        groups_keyed(final(groups)@, mk, dk),
        group_keys_unique(final(groups)@),
        group_placed_entity(final(groups)@, key@, e@),
        final(groups)@.len() >= old(groups)@.len(),
        forall|g: int|
            0 <= g < old(groups)@.len() ==> #[trigger] final(groups)@[g].0@ == old(groups)@[g].0@
                && (forall|ee: int|
                0 <= ee < old(groups)@[g].1@.len() ==> #[trigger] final(groups)@[g].1@[ee] == old(
                    groups,
                )@[g].1@[ee]) && final(groups)@[g].1@.len() >= old(groups)@[g].1@.len(),
        forall|g: int, ee: int|
            #![trigger final(groups)@[g].1@[ee]]
            0 <= g < final(groups)@.len() && 0 <= ee < final(groups)@[g].1@.len() ==> (g < old(
                groups,
            )@.len() && ee < old(groups)@[g].1@.len() && final(groups)@[g].1@[ee] == old(
                groups,
            )@[g].1@[ee] && final(groups)@[g].0@ == old(groups)@[g].0@) || (final(groups)@[g].1@[ee]@
                == e@ && final(groups)@[g].0@ == key@),
{
    let n = groups.len();
    let mut gi: usize = 0;
    while gi < n
        invariant_except_break
            groups@ == old(groups)@,
        invariant
            0 <= gi <= n,
            n == groups@.len(),
            groups@ == old(groups)@,
            forall|g: int| 0 <= g < gi ==> (#[trigger] groups@[g]).0@ != key@,
        ensures
            groups@ == old(groups)@,
            gi <= n,
            gi < n ==> groups@[gi as int].0@ == key@,
            gi == n ==> forall|g: int| 0 <= g < n ==> (#[trigger] groups@[g]).0@ != key@,
        decreases n - gi,
    {
        proof {
            assert(groups@[gi as int].0@ == old(groups)@[gi as int].0@);
        }
        if eq_str(groups[gi].0.as_str(), key.as_str()) {
            break ;
        }
        gi = gi + 1;
    }
    if gi < n {
        let mut entry = groups.remove(gi);
        let ghost preventities = entry.1@;
        entry.1.push(e);
        let ghost newentry = entry;
        groups.insert(gi, entry);
        proof {
            assert(groups@.len() == old(groups)@.len());
            assert forall|g: int| 0 <= g < groups@.len() && g != gi implies #[trigger] groups@[g]
                == old(groups)@[g] by {}
            assert(groups@[gi as int] == newentry);
            assert(newentry.0@ == old(groups)@[gi as int].0@);
            assert forall|g: int, e2: int|
                0 <= g < groups@.len() && 0 <= e2 < (#[trigger] groups@[g]).1@.len() implies
                entity_keyed((#[trigger] groups@[g].1@[e2])@, groups@[g].0@, mk, dk) by {
                if g != gi {
                    assert(groups@[g] == old(groups)@[g]);
                } else {
                    if e2 < preventities.len() {
                        assert(groups@[g].1@[e2] == old(groups)@[gi as int].1@[e2]);
                    } else {
                        assert(groups@[g].1@[e2]@ == e@);
                    }
                }
            }
            assert(group_keys_unique(groups@)) by {
                assert forall|g1: int, g2: int|
                    0 <= g1 < g2 < groups@.len() implies (#[trigger] groups@[g1]).0@ != (
                #[trigger] groups@[g2]).0@ by {
                    assert(groups@[g1].0@ == old(groups)@[g1].0@);
                    assert(groups@[g2].0@ == old(groups)@[g2].0@);
                }
            }
            assert(group_placed_entity(groups@, key@, e@)) by {
                assert(groups@[gi as int].1@[preventities.len() as int]@ == e@);
                assert(groups@[gi as int].0@ == key@);
            }
            assert forall|g: int, ee: int|
                #![trigger groups@[g].1@[ee]]
                0 <= g < groups@.len() && 0 <= ee < groups@[g].1@.len() implies (g < old(
                groups,
            )@.len() && ee < old(groups)@[g].1@.len() && groups@[g].1@[ee] == old(
                groups,
            )@[g].1@[ee] && groups@[g].0@ == old(groups)@[g].0@) || (groups@[g].1@[ee]@ == e@
                && groups@[g].0@ == key@) by {
                if g != gi {
                    assert(groups@[g] == old(groups)@[g]);
                } else {
                    assert(groups@[g] == newentry);
                    if ee < preventities.len() {
                        assert(groups@[g].1@[ee] == old(groups)@[gi as int].1@[ee]);
                        assert(groups@[g].0@ == old(groups)@[gi as int].0@);
                    } else {
                        assert(groups@[g].1@[ee]@ == e@);
                        assert(groups@[g].0@ == key@);
                    }
                }
            }
        }
    } else {
        let mut es: Vec<Entity> = Vec::new();
        es.push(e);
        let ghost prevgroups = groups@;
        groups.push((key, es));
        proof {
            assert forall|g: int, e2: int|
                0 <= g < groups@.len() && 0 <= e2 < (#[trigger] groups@[g]).1@.len() implies
                entity_keyed((#[trigger] groups@[g].1@[e2])@, groups@[g].0@, mk, dk) by {
                if g < prevgroups.len() {
                    assert(groups@[g] == prevgroups[g]);
                }
            }
            assert(group_keys_unique(groups@)) by {
                assert forall|g1: int, g2: int|
                    0 <= g1 < g2 < groups@.len() implies (#[trigger] groups@[g1]).0@ != (
                #[trigger] groups@[g2]).0@ by {
                    if g2 < prevgroups.len() {
                        assert(groups@[g1] == prevgroups[g1]);
                        assert(groups@[g2] == prevgroups[g2]);
                    } else {
                        assert(groups@[g2].0@ == key@);
                        assert(groups@[g1] == prevgroups[g1]);
                        assert(prevgroups[g1].0@ != key@);
                    }
                }
            }
            assert(group_placed_entity(groups@, key@, e@)) by {
                assert(groups@[prevgroups.len() as int].1@[0]@ == e@);
                assert(groups@[prevgroups.len() as int].0@ == key@);
            }
            assert forall|g: int|
                0 <= g < prevgroups.len() implies #[trigger] groups@[g].0@ == prevgroups[g].0@
                    && (forall|ee: int|
                    0 <= ee < prevgroups[g].1@.len() ==> #[trigger] groups@[g].1@[ee]
                        == prevgroups[g].1@[ee]) && groups@[g].1@.len()
                    >= prevgroups[g].1@.len() by {
                assert(groups@[g] == prevgroups[g]);
            }
            assert forall|g: int, ee: int|
                #![trigger groups@[g].1@[ee]]
                0 <= g < groups@.len() && 0 <= ee < groups@[g].1@.len() implies (g < old(
                groups,
            )@.len() && ee < old(groups)@[g].1@.len() && groups@[g].1@[ee] == old(
                groups,
            )@[g].1@[ee] && groups@[g].0@ == old(groups)@[g].0@) || (groups@[g].1@[ee]@ == e@
                && groups@[g].0@ == key@) by {
                if g < prevgroups.len() {
                    assert(groups@[g] == prevgroups[g]);
                } else {
                    assert(groups@[g].1@[ee]@ == e@);
                    assert(groups@[g].0@ == key@);
                }
            }
        }
    }
}

/// Regroups loose rules into entities keyed by each rule's source name; a
/// require rule lands in the requires of its source's entity, an exclude
/// rule in its excludes.
pub fn rule_set_to_entity_set(rules: Vec<EntityRule>) -> (r: Vec<Entity>)
    ensures
        entities_grouped(r@),
        entity_names_unique(r@),
        forall|j: int|
            0 <= j < rules@.len() ==> rule_grouped_in(r@, #[trigger] rules@[j]@),
        forall|i: int|
            0 <= i < r@.len() ==> entity_sourced_exact((#[trigger] r@[i])@, dv_rules(rules@)),
{
    let ghost orig = rules@;
    let ghost rsv = dv_rules(orig);
    let total = rules.len();
    let mut out: Vec<Entity> = Vec::new();
    let mut rest = rules;
    let mut done: usize = 0;
    while rest.len() > 0
        invariant
            0 <= done <= total,
            total == orig.len(),
            done + rest@.len() == total,
            rest@ == orig.skip(done as int),
            entities_grouped(out@),
            entity_names_unique(out@),
            forall|j: int| 0 <= j < done ==> rule_grouped_in(out@, #[trigger] orig[j]@),
            rsv == dv_rules(orig),
            forall|g: int|
                0 <= g < out@.len() ==> entity_sourced_exact(
                    (#[trigger] out@[g])@,
                    rsv.take(done as int),
                ),
        decreases rest@.len(),
    {
        let ghost prevrest = rest@;
        let rule = rest.remove(0);
        proof {
            assert(prevrest[0] == orig[done as int]);
            assert(rule == orig[done as int]);
            assert(rest@ =~= prevrest.drop_first());
            assert(prevrest.drop_first() =~= orig.skip(done as int + 1));
        }
        let name = rule.source().clone();
        proof {
            assert(name@ == rule@.source);
        }
        let n = out.len();
        let mut oi: usize = 0;
        while oi < n
            invariant
                0 <= oi <= n,
                n == out@.len(),
                forall|g: int| 0 <= g < oi ==> (#[trigger] out@[g])@.name != name@,
            ensures
                n == out@.len(),
                oi <= n,
                oi < n ==> out@[oi as int]@.name == name@,
                oi == n ==> forall|g: int| 0 <= g < n ==> (#[trigger] out@[g])@.name != name@,
            decreases n - oi,
        {
            if eq_str(out[oi].name.0.as_str(), name.0.as_str()) {
                break ;
            }
            oi = oi + 1;
        }
        let is_req = rule.is_require();
        if oi < n {
            let ghost outpre = out@;
            let mut entry = out.remove(oi);
            let ghost entrypre = entry@;
            if is_req {
                entry.add_require(rule);
            } else {
                entry.add_exclude(rule);
            }
            let ghost newentry = entry@;
            out.insert(oi, entry);
            proof {
                assert(out@ =~= outpre.update(oi as int, out@[oi as int]));
                assert forall|i: int, j: int|
                    #![trigger out@[i]@.requires[j]]
                    0 <= i < out@.len() && 0 <= j < out@[i]@.requires.len() implies grouped_req(
                    out@[i]@,
                    j,
                ) by {
                    if i != oi {
                        assert(out@[i] == outpre[i]);
                    } else {
                        assert(out@[i]@ == newentry);
                        lemma_member_grouped_req(entrypre, newentry, rule@, is_req, j);
                    }
                }
                assert forall|i: int, j: int|
                    #![trigger out@[i]@.excludes[j]]
                    0 <= i < out@.len() && 0 <= j < out@[i]@.excludes.len() implies grouped_exc(
                    out@[i]@,
                    j,
                ) by {
                    if i != oi {
                        assert(out@[i] == outpre[i]);
                    } else {
                        assert(out@[i]@ == newentry);
                        lemma_member_grouped_exc(entrypre, newentry, rule@, is_req, j);
                    }
                }
                assert(entity_names_unique(out@)) by {
                    assert forall|i1: int, i2: int|
                        0 <= i1 < i2 < out@.len() implies (#[trigger] out@[i1])@.name != (
                    #[trigger] out@[i2])@.name by {
                        assert(out@[i1]@.name == outpre[i1]@.name);
                        assert(out@[i2]@.name == outpre[i2]@.name);
                    }
                }
                assert(rule_grouped_in(out@, orig[done as int]@)) by {
                    assert(out@[oi as int]@ == newentry);
                    assert(newentry.name == rule@.source);
                    if is_req {
                        crate::model::rule::lemma_insert_rule_membership(
                            entrypre.requires,
                            rule@,
                            rule@,
                        );
                        assert(newentry.requires.contains(rule@));
                    } else {
                        crate::model::rule::lemma_insert_rule_membership(
                            entrypre.excludes,
                            rule@,
                            rule@,
                        );
                        assert(newentry.excludes.contains(rule@));
                    }
                }
                assert forall|x: RuleView|
                    entrypre.requires.contains(x) implies #[trigger] newentry.requires.contains(
                    x,
                ) by {
                    if is_req {
                        crate::model::rule::lemma_insert_rule_membership(
                            entrypre.requires,
                            rule@,
                            x,
                        );
                    }
                }
                assert forall|x: RuleView|
                    entrypre.excludes.contains(x) implies #[trigger] newentry.excludes.contains(
                    x,
                ) by {
                    if !is_req {
                        crate::model::rule::lemma_insert_rule_membership(
                            entrypre.excludes,
                            rule@,
                            x,
                        );
                    }
                }
                assert forall|j: int| 0 <= j < done + 1 implies rule_grouped_in(
                    out@,
                    #[trigger] orig[j]@,
                ) by {
                    if j < done {
                        lemma_grouped_preserved(outpre, out@, oi as int, entrypre, newentry, orig[j]@);
                    }
                }
                assert(rsv[done as int] == rule@) by {
                    assert(dv_rules(orig)[done as int] == orig[done as int]@);
                }
                assert(entrypre.name == name@);
                assert(newentry.name == name@);
                assert forall|g: int| 0 <= g < out@.len() implies entity_sourced_exact(
                    (#[trigger] out@[g])@,
                    rsv.take(done as int + 1),
                ) by {
                    lemma_sourced_take_step(rsv, done as int, out@[g]@.name, true);
                    lemma_sourced_take_step(rsv, done as int, out@[g]@.name, false);
                    if g != oi {
                        assert(out@[g] == outpre[g]);
                        if g < oi {
                            assert(outpre[g]@.name != outpre[oi as int]@.name);
                        } else {
                            assert(outpre[oi as int]@.name != outpre[g]@.name);
                        }
                        assert(out@[g]@.name != name@);
                        assert(entity_sourced_exact(outpre[g]@, rsv.take(done as int)));
                    } else {
                        assert(out@[g]@ == newentry);
                        assert(entity_sourced_exact(outpre[oi as int]@, rsv.take(done as int)));
                        if is_req {
                            lemma_canon_rules_push(
                                sourced_rules(rsv.take(done as int), name@, true),
                                rule@,
                            );
                            assert(sourced_rules(rsv.take(done as int + 1), name@, true)
                                == sourced_rules(rsv.take(done as int), name@, true).push(rule@));
                            assert(sourced_rules(rsv.take(done as int + 1), name@, false)
                                == sourced_rules(rsv.take(done as int), name@, false));
                            assert(newentry.requires == crate::model::rule::insert_rule(
                                entrypre.requires,
                                rule@,
                            ));
                        } else {
                            lemma_canon_rules_push(
                                sourced_rules(rsv.take(done as int), name@, false),
                                rule@,
                            );
                            assert(sourced_rules(rsv.take(done as int + 1), name@, false)
                                == sourced_rules(rsv.take(done as int), name@, false).push(rule@));
                            assert(sourced_rules(rsv.take(done as int + 1), name@, true)
                                == sourced_rules(rsv.take(done as int), name@, true));
                            assert(newentry.excludes == crate::model::rule::insert_rule(
                                entrypre.excludes,
                                rule@,
                            ));
                        }
                        assert(newentry.requires.len() + newentry.excludes.len() > 0);
                    }
                }
            }
        } else {
            let mut entry = Entity::new(name.0.as_str());
            let ghost entrypre = entry@;
            if is_req {
                entry.add_require(rule);
            } else {
                entry.add_exclude(rule);
            }
            let ghost prevout = out@;
            let ghost newentry = entry@;
            out.push(entry);
            proof {
                assert forall|i: int, j: int|
                    #![trigger out@[i]@.requires[j]]
                    0 <= i < out@.len() && 0 <= j < out@[i]@.requires.len() implies grouped_req(
                    out@[i]@,
                    j,
                ) by {
                    if i < prevout.len() {
                        assert(out@[i] == prevout[i]);
                    } else {
                        assert(out@[i]@ == newentry);
                        lemma_member_grouped_req(entrypre, newentry, rule@, is_req, j);
                    }
                }
                assert forall|i: int, j: int|
                    #![trigger out@[i]@.excludes[j]]
                    0 <= i < out@.len() && 0 <= j < out@[i]@.excludes.len() implies grouped_exc(
                    out@[i]@,
                    j,
                ) by {
                    if i < prevout.len() {
                        assert(out@[i] == prevout[i]);
                    } else {
                        assert(out@[i]@ == newentry);
                        lemma_member_grouped_exc(entrypre, newentry, rule@, is_req, j);
                    }
                }
                assert(entity_names_unique(out@)) by {
                    assert forall|i1: int, i2: int|
                        0 <= i1 < i2 < out@.len() implies (#[trigger] out@[i1])@.name != (
                    #[trigger] out@[i2])@.name by {
                        if i2 < prevout.len() {
                            assert(out@[i1] == prevout[i1]);
                            assert(out@[i2] == prevout[i2]);
                        } else {
                            assert(out@[i2]@.name == name@);
                            assert(out@[i1] == prevout[i1]);
                            assert(prevout[i1]@.name != name@);
                        }
                    }
                }
                assert(rule_grouped_in(out@, orig[done as int]@)) by {
                    assert(out@[prevout.len() as int]@ == newentry);
                    assert(newentry.name == rule@.source);
                    if is_req {
                        crate::model::rule::lemma_insert_rule_membership(
                            entrypre.requires,
                            rule@,
                            rule@,
                        );
                        assert(newentry.requires.contains(rule@));
                    } else {
                        crate::model::rule::lemma_insert_rule_membership(
                            entrypre.excludes,
                            rule@,
                            rule@,
                        );
                        assert(newentry.excludes.contains(rule@));
                    }
                }
                assert forall|j: int| 0 <= j < done + 1 implies rule_grouped_in(
                    out@,
                    #[trigger] orig[j]@,
                ) by {
                    if j < done {
                        let w = choose|w: int|
                            0 <= w < prevout.len() && (#[trigger] prevout[w])@.name
                                == orig[j]@.source && (if orig[j]@.rtype
                                == EntityRuleType::Require {
                                prevout[w]@.requires.contains(orig[j]@)
                            } else {
                                prevout[w]@.excludes.contains(orig[j]@)
                            });
                        assert(out@[w] == prevout[w]);
                        assert((#[trigger] out@[w])@.name == orig[j]@.source);
                    }
                }
                assert(rsv[done as int] == rule@) by {
                    assert(dv_rules(orig)[done as int] == orig[done as int]@);
                }
                // A name never seen before has no earlier sourced rule: any
                // such rule would already stand grouped under that name.
                assert(sourced_rules(rsv.take(done as int), name@, true).len() == 0) by {
                    if sourced_rules(rsv.take(done as int), name@, true).len() > 0 {
                        lemma_sourced_element(rsv.take(done as int), name@, true);
                        let j = choose|j: int|
                            0 <= j < rsv.take(done as int).len() && (#[trigger] rsv.take(
                                done as int,
                            )[j]).source == name@ && ((rsv.take(done as int)[j].rtype
                                == EntityRuleType::Require) == true);
                        assert(rsv.take(done as int)[j] == rsv[j]);
                        assert(orig[j]@ == rsv[j]) by {
                            assert(dv_rules(orig)[j] == orig[j]@);
                        }
                        assert(rule_grouped_in(prevout, orig[j]@));
                        let w = choose|w: int|
                            0 <= w < prevout.len() && (#[trigger] prevout[w])@.name
                                == orig[j]@.source && (if orig[j]@.rtype
                                == EntityRuleType::Require {
                                prevout[w]@.requires.contains(orig[j]@)
                            } else {
                                prevout[w]@.excludes.contains(orig[j]@)
                            });
                        assert(prevout[w]@.name != name@);
                        assert(false);
                    }
                }
                assert(sourced_rules(rsv.take(done as int), name@, false).len() == 0) by {
                    if sourced_rules(rsv.take(done as int), name@, false).len() > 0 {
                        lemma_sourced_element(rsv.take(done as int), name@, false);
                        let j = choose|j: int|
                            0 <= j < rsv.take(done as int).len() && (#[trigger] rsv.take(
                                done as int,
                            )[j]).source == name@ && ((rsv.take(done as int)[j].rtype
                                == EntityRuleType::Require) == false);
                        assert(rsv.take(done as int)[j] == rsv[j]);
                        assert(orig[j]@ == rsv[j]) by {
                            assert(dv_rules(orig)[j] == orig[j]@);
                        }
                        assert(rule_grouped_in(prevout, orig[j]@));
                        let w = choose|w: int|
                            0 <= w < prevout.len() && (#[trigger] prevout[w])@.name
                                == orig[j]@.source && (if orig[j]@.rtype
                                == EntityRuleType::Require {
                                prevout[w]@.requires.contains(orig[j]@)
                            } else {
                                prevout[w]@.excludes.contains(orig[j]@)
                            });
                        assert(prevout[w]@.name != name@);
                        assert(false);
                    }
                }
                assert(newentry.name == name@);
                assert forall|g: int| 0 <= g < out@.len() implies entity_sourced_exact(
                    (#[trigger] out@[g])@,
                    rsv.take(done as int + 1),
                ) by {
                    lemma_sourced_take_step(rsv, done as int, out@[g]@.name, true);
                    lemma_sourced_take_step(rsv, done as int, out@[g]@.name, false);
                    if g < prevout.len() {
                        assert(out@[g] == prevout[g]);
                        assert(prevout[g]@.name != name@);
                        assert(entity_sourced_exact(prevout[g]@, rsv.take(done as int)));
                    } else {
                        assert(out@[g]@ == newentry);
                        assert(entrypre.requires =~= Seq::<RuleView>::empty());
                        assert(entrypre.excludes =~= Seq::<RuleView>::empty());
                        if is_req {
                            lemma_canon_rules_push(
                                sourced_rules(rsv.take(done as int), name@, true),
                                rule@,
                            );
                            assert(sourced_rules(rsv.take(done as int + 1), name@, true)
                                == sourced_rules(rsv.take(done as int), name@, true).push(rule@));
                            assert(sourced_rules(rsv.take(done as int + 1), name@, false)
                                == sourced_rules(rsv.take(done as int), name@, false));
                            assert(crate::model::rule::canon_rules(
                                sourced_rules(rsv.take(done as int), name@, true),
                            ) =~= entrypre.requires);
                            assert(newentry.requires == crate::model::rule::insert_rule(
                                entrypre.requires,
                                rule@,
                            ));
                            assert(newentry.excludes =~= crate::model::rule::canon_rules(
                                sourced_rules(rsv.take(done as int + 1), name@, false),
                            ));
                        } else {
                            lemma_canon_rules_push(
                                sourced_rules(rsv.take(done as int), name@, false),
                                rule@,
                            );
                            assert(sourced_rules(rsv.take(done as int + 1), name@, false)
                                == sourced_rules(rsv.take(done as int), name@, false).push(rule@));
                            assert(sourced_rules(rsv.take(done as int + 1), name@, true)
                                == sourced_rules(rsv.take(done as int), name@, true));
                            assert(crate::model::rule::canon_rules(
                                sourced_rules(rsv.take(done as int), name@, false),
                            ) =~= entrypre.excludes);
                            assert(newentry.excludes == crate::model::rule::insert_rule(
                                entrypre.excludes,
                                rule@,
                            ));
                            assert(newentry.requires =~= crate::model::rule::canon_rules(
                                sourced_rules(rsv.take(done as int + 1), name@, true),
                            ));
                        }
                        assert(newentry.requires.len() + newentry.excludes.len() > 0);
                    }
                }
            }
        }
        done = done + 1;
    }
    proof {
        assert(orig.skip(done as int) =~= Seq::<EntityRule>::empty());
        assert(rsv.take(done as int) =~= rsv);
        assert forall|g: int| 0 <= g < out@.len() implies entity_sourced_exact(
            (#[trigger] out@[g])@,
            rsv,
        ) by {
            assert(entity_sourced_exact(out@[g]@, rsv.take(done as int)));
        }
    }
    out
}

/// One entry updated by adding a rule keeps every earlier placement: names
/// are unchanged and rule sets only grow.
proof fn lemma_grouped_preserved(
    outpre: Seq<Entity>,
    out: Seq<Entity>,
    oi: int,
    entrypre: EntityView,
    newentry: EntityView,
    rv: RuleView,
)
    requires
        out.len() == outpre.len(),
        0 <= oi < outpre.len(),
        forall|g: int| 0 <= g < out.len() && g != oi ==> #[trigger] out[g] == outpre[g],
        out[oi]@ == newentry,
        outpre[oi]@ == entrypre,
        newentry.name == entrypre.name,
        forall|x: RuleView|
            entrypre.requires.contains(x) ==> #[trigger] newentry.requires.contains(x),
        forall|x: RuleView|
            entrypre.excludes.contains(x) ==> #[trigger] newentry.excludes.contains(x),
        rule_grouped_in(outpre, rv),
    ensures
        rule_grouped_in(out, rv),
{
    let w = choose|w: int|
        0 <= w < outpre.len() && (#[trigger] outpre[w])@.name == rv.source && (if rv.rtype
            == EntityRuleType::Require {
            outpre[w]@.requires.contains(rv)
        } else {
            outpre[w]@.excludes.contains(rv)
        });
    if w != oi {
        assert(out[w] == outpre[w]);
        assert((#[trigger] out[w])@.name == rv.source);
    } else {
        assert((#[trigger] out[w])@.name == rv.source);
        if rv.rtype == EntityRuleType::Require {
            assert(out[w]@.requires.contains(rv));
        } else {
            assert(out[w]@.excludes.contains(rv));
        }
    }
}


/// The input rules sourced at `nm` of the given type (`req` selects the
/// require rules), in input order.
pub open spec fn sourced_rules(rs: Seq<RuleView>, nm: Seq<char>, req: bool) -> Seq<RuleView>
    decreases rs.len(),
{
    if rs.len() == 0 {
        Seq::empty()
    } else {
        let pre = sourced_rules(rs.drop_last(), nm, req);
        if rs.last().source == nm && ((rs.last().rtype == EntityRuleType::Require) == req) {
            pre.push(rs.last())
        } else {
            pre
        }
    }
}

/// The entity is exactly the regrouping of the inputs under its own name:
/// each list holds the input rules of that name and type in canonical form,
/// and at least one rule was regrouped into it.
pub open spec fn entity_sourced_exact(e: EntityView, rs: Seq<RuleView>) -> bool {
    &&& e.requires == crate::model::rule::canon_rules(sourced_rules(rs, e.name, true))
    &&& e.excludes == crate::model::rule::canon_rules(sourced_rules(rs, e.name, false))
    &&& e.requires.len() + e.excludes.len() > 0
}

/// Taking one more rule extends the sourced selection exactly when the rule
/// carries the name and the type.
proof fn lemma_sourced_take_step(rs: Seq<RuleView>, j: int, nm: Seq<char>, req: bool)
    requires
        0 <= j < rs.len(),
    ensures
        (rs[j].source == nm && ((rs[j].rtype == EntityRuleType::Require) == req))
            ==> sourced_rules(rs.take(j + 1), nm, req) == sourced_rules(rs.take(j), nm, req).push(
            rs[j],
        ),
        !(rs[j].source == nm && ((rs[j].rtype == EntityRuleType::Require) == req))
            ==> sourced_rules(rs.take(j + 1), nm, req) == sourced_rules(rs.take(j), nm, req),
{
    assert(rs.take(j + 1).drop_last() =~= rs.take(j));
    assert(rs.take(j + 1).last() == rs[j]);
    assert(rs.take(j + 1).len() == j + 1);
}

/// A non-empty sourced selection names an input rule.
proof fn lemma_sourced_element(rs: Seq<RuleView>, nm: Seq<char>, req: bool)
    requires
        sourced_rules(rs, nm, req).len() > 0,
    ensures
        exists|j: int|
            0 <= j < rs.len() && (#[trigger] rs[j]).source == nm && ((rs[j].rtype
                == EntityRuleType::Require) == req),
    decreases rs.len(),
{
    if rs.len() > 0 {
        if rs.last().source == nm && ((rs.last().rtype == EntityRuleType::Require) == req) {
            assert(rs[rs.len() - 1].source == nm);
        } else {
            lemma_sourced_element(rs.drop_last(), nm, req);
            let j = choose|j: int|
                0 <= j < rs.drop_last().len() && (#[trigger] rs.drop_last()[j]).source == nm && ((
                rs.drop_last()[j].rtype == EntityRuleType::Require) == req);
            assert(rs[j].source == nm);
            assert((rs[j].rtype == EntityRuleType::Require) == req);
        }
    }
}

/// Canonicalizing a pushed rule is one canonical insertion.
proof fn lemma_canon_rules_push(t: Seq<RuleView>, x: RuleView)
    ensures
        crate::model::rule::canon_rules(t.push(x)) == crate::model::rule::insert_rule(
            crate::model::rule::canon_rules(t),
            x,
        ),
{
    assert(t.push(x).drop_last() =~= t);
    assert(t.push(x).last() == x);
    assert(t.push(x).len() == t.len() + 1);
}

/// The rule stands in the output entity named by its own source, in the
/// list of its own type.
pub open spec fn rule_grouped_in(out: Seq<Entity>, rv: RuleView) -> bool {
    exists|i: int|
        0 <= i < out.len() && (#[trigger] out[i])@.name == rv.source && (if rv.rtype
            == EntityRuleType::Require {
            out[i]@.requires.contains(rv)
        } else {
            out[i]@.excludes.contains(rv)
        })
}

/// The output entity names are pairwise distinct.
pub open spec fn entity_names_unique(out: Seq<Entity>) -> bool {
    forall|i1: int, i2: int|
        0 <= i1 < i2 < out.len() ==> (#[trigger] out[i1])@.name != (#[trigger] out[i2])@.name
}

/// Require rule `j` of the entity is require-typed and sourced at the
/// entity's own name.
pub open spec fn grouped_req(e: EntityView, j: int) -> bool {
    e.requires[j].rtype == EntityRuleType::Require && e.requires[j].source == e.name
}

pub open spec fn grouped_exc(e: EntityView, j: int) -> bool {
    e.excludes[j].rtype == EntityRuleType::Exclude && e.excludes[j].source == e.name
}

/// Every entity groups only its own rules, by type.
pub open spec fn entities_grouped(s: Seq<Entity>) -> bool {
    &&& forall|i: int, j: int|
        #![trigger s[i]@.requires[j]]
        0 <= i < s.len() && 0 <= j < s[i]@.requires.len() ==> grouped_req(s[i]@, j)
    &&& forall|i: int, j: int|
        #![trigger s[i]@.excludes[j]]
        0 <= i < s.len() && 0 <= j < s[i]@.excludes.len() ==> grouped_exc(s[i]@, j)
}

proof fn lemma_member_grouped_req(
    entrypre: EntityView,
    newentry: EntityView,
    r: RuleView,
    is_req: bool,
    j: int,
)
    requires
        forall|jj: int| 0 <= jj < entrypre.requires.len() ==> grouped_req(entrypre, jj),
        r.source == entrypre.name,
        newentry.name == entrypre.name,
        is_req ==> r.rtype == EntityRuleType::Require && newentry.requires
            == crate::model::rule::insert_rule(entrypre.requires, r) && newentry.excludes
            == entrypre.excludes,
        !is_req ==> newentry.requires == entrypre.requires,
        0 <= j < newentry.requires.len(),
    ensures
        grouped_req(newentry, j),
{
    if is_req {
        crate::model::rule::lemma_insert_rule_membership(
            entrypre.requires,
            r,
            newentry.requires[j],
        );
        assert(newentry.requires.contains(newentry.requires[j]));
        if entrypre.requires.contains(newentry.requires[j]) {
            let w = choose|w: int|
                0 <= w < entrypre.requires.len() && entrypre.requires[w] == newentry.requires[j];
            assert(grouped_req(entrypre, w));
            assert(newentry.requires[j].rtype == EntityRuleType::Require);
            assert(newentry.requires[j].source == entrypre.name);
        } else {
            assert(newentry.requires[j] == r);
        }
    } else {
        assert(newentry.requires[j] == entrypre.requires[j]);
        assert(grouped_req(entrypre, j));
    }
}

proof fn lemma_member_grouped_exc(
    entrypre: EntityView,
    newentry: EntityView,
    r: RuleView,
    is_req: bool,
    j: int,
)
    requires
        forall|jj: int| 0 <= jj < entrypre.excludes.len() ==> grouped_exc(entrypre, jj),
        r.source == entrypre.name,
        newentry.name == entrypre.name,
        !is_req ==> r.rtype == EntityRuleType::Exclude && newentry.excludes
            == crate::model::rule::insert_rule(entrypre.excludes, r) && newentry.requires
            == entrypre.requires,
        is_req ==> newentry.excludes == entrypre.excludes,
        0 <= j < newentry.excludes.len(),
    ensures
        grouped_exc(newentry, j),
{
    if !is_req {
        crate::model::rule::lemma_insert_rule_membership(
            entrypre.excludes,
            r,
            newentry.excludes[j],
        );
        assert(newentry.excludes.contains(newentry.excludes[j]));
        if entrypre.excludes.contains(newentry.excludes[j]) {
            let w = choose|w: int|
                0 <= w < entrypre.excludes.len() && entrypre.excludes[w] == newentry.excludes[j];
            assert(grouped_exc(entrypre, w));
            assert(newentry.excludes[j].rtype == EntityRuleType::Exclude);
            assert(newentry.excludes[j].source == entrypre.name);
        } else {
            assert(newentry.excludes[j] == r);
        }
    } else {
        assert(newentry.excludes[j] == entrypre.excludes[j]);
        assert(grouped_exc(entrypre, j));
    }
}

} // verus!
