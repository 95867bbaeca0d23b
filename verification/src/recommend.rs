//! The recommendation engine: chooses a subset of the offending rules whose
//! removal is expected to clear the reported conflicts, under one of two
//! policies.

use vstd::prelude::*;

use crate::model::entity::{Entity, EntityPriority};
use crate::model::rule::{cmp_rule, dv_rules, EntityRule, RuleView};
use crate::order::eq_str;
use crate::solver::solver::{dv_conflicts, ConflictEntry};

verus! {

/// How the engine picks rules: critical entities first, or the greedy
/// coverage heuristic over all entries.
#[derive(Debug, Clone, Copy, PartialEq, Eq, Structural)]
pub enum RecommendPolicy {
    HighPriorityFirst,
    All,
}

impl Default for RecommendPolicy {
    fn default() -> (r: Self)
        ensures
            r == RecommendPolicy::HighPriorityFirst,
    {
        RecommendPolicy::HighPriorityFirst
    }
}

impl RecommendPolicy {
    /// Parses a policy name; an unrecognized name yields `None`.
    pub fn from_str(s: &str) -> (r: Option<RecommendPolicy>)
        ensures
            s@ == "HighPriorityFirst"@ ==> r == Some(RecommendPolicy::HighPriorityFirst),
            s@ == "All"@ ==> r == Some(RecommendPolicy::All),
    {
        proof {
            reveal_strlit("HighPriorityFirst");
            reveal_strlit("All");
            assert("HighPriorityFirst"@.len() == 17);
            assert("All"@.len() == 3);
        }
        if eq_str(s, "HighPriorityFirst") {
            Some(RecommendPolicy::HighPriorityFirst)
        } else if eq_str(s, "All") {
            Some(RecommendPolicy::All)
        } else {
            None
        }
    }
}

/// The rules are pairwise distinct.
pub open spec fn rules_distinct(rs: Seq<RuleView>) -> bool {
    forall|j1: int, j2: int|
        #![trigger rs[j1], rs[j2]]
        0 <= j1 < j2 < rs.len() ==> rs[j1] != rs[j2]
}

/// The rule appears in some conflict entry's list.
pub open spec fn listed_in(conflicts: Seq<(Seq<char>, Seq<RuleView>)>, r: RuleView) -> bool {
    exists|i: int| 0 <= i < conflicts.len() && (#[trigger] conflicts[i]).1.contains(r)
}

/// A name belongs to a critical entity.
pub open spec fn critical_key(entities: Seq<Entity>, k: Seq<char>) -> bool {
    exists|e: int|
        0 <= e < entities.len() && (#[trigger] entities[e])@.name == k && entities[e]@.priority
            == EntityPriority::Critical
}

/// The concatenated rule lists of the entries keyed by critical entities,
/// in map order.
pub open spec fn critical_union(
    entities: Seq<Entity>,
    conflicts: Seq<(Seq<char>, Seq<RuleView>)>,
) -> Seq<RuleView>
    decreases conflicts.len(),
{
    if conflicts.len() == 0 {
        Seq::empty()
    } else {
        (if critical_key(entities, conflicts[0].0) {
            conflicts[0].1
        } else {
            Seq::empty()
        }) + critical_union(entities, conflicts.drop_first())
    }
}

/// Every rule of the critical union appears in some conflict list.
pub proof fn lemma_critical_union_listed(
    entities: Seq<Entity>,
    conflicts: Seq<(Seq<char>, Seq<RuleView>)>,
    r: RuleView,
)
    requires
        critical_union(entities, conflicts).contains(r),
    ensures
        listed_in(conflicts, r),
    decreases conflicts.len(),
{
    let u = critical_union(entities, conflicts);
    if conflicts.len() == 0 {
        let w = choose|w: int| 0 <= w < u.len() && u[w] == r;
    } else {
        let head = if critical_key(entities, conflicts[0].0) {
            conflicts[0].1
        } else {
            Seq::<RuleView>::empty()
        };
        let w = choose|w: int| 0 <= w < u.len() && u[w] == r;
        if w < head.len() {
            assert(conflicts[0].1.contains(r)) by {
                assert(conflicts[0].1[w] == r);
            }
        } else {
            assert(critical_union(entities, conflicts.drop_first()).contains(r)) by {
                assert(critical_union(entities, conflicts.drop_first())[w - head.len()] == r);
            }
            lemma_critical_union_listed(entities, conflicts.drop_first(), r);
            let i = choose|i: int|
                0 <= i < conflicts.drop_first().len() && (#[trigger] conflicts.drop_first()[
                    i
                ]).1.contains(r);
            assert(conflicts[i + 1].1.contains(r));
        }
    }
}

/// Takes exactly the rules of the conflict entries keyed by critical
/// entities, sorted and deduplicated. The result is empty exactly when no
/// conflicted entity is critical (or the critical ones carry no rules).
pub fn recommend_policy_high_priority_first(entities: &Vec<Entity>, conflicts: &Vec<ConflictEntry>)
    -> (r: Vec<EntityRule>)
    ensures
        dv_rules(r@) == crate::model::rule::canon_rules(
            critical_union(entities@, dv_conflicts(conflicts@)),
        ),
{
    let ghost cv = dv_conflicts(conflicts@);
    let mut out: Vec<EntityRule> = Vec::new();
    let mut i: usize = 0;
    let ghost done = Seq::<RuleView>::empty();
    proof {
        assert(dv_rules(out@) =~= done);
        assert(cv.skip(0) =~= cv);
        assert(done + critical_union(entities@, cv) =~= critical_union(entities@, cv));
    }
    while i < conflicts.len()
        invariant
            0 <= i <= conflicts@.len(),
            cv == dv_conflicts(conflicts@),
            cv.len() == conflicts@.len(),
            dv_rules(out@) == done,
            critical_union(entities@, cv) == done + critical_union(
                entities@,
                cv.skip(i as int),
            ),
        decreases conflicts@.len() - i,
    {
        proof {
            assert(cv.skip(i as int)[0] == cv[i as int]);
            assert(cv[i as int] == (conflicts@[i as int].0@, dv_rules(conflicts@[i as int].1@)));
            assert(cv.skip(i as int).drop_first() =~= cv.skip(i as int + 1));
        }
        let ghost prevdone = done;
        let key = conflicts[i].0.as_str();
        let mut critical = false;
        let mut e: usize = 0;
        while e < entities.len()
            invariant_except_break
                !critical,
            invariant
                0 <= e <= entities@.len(),
                key@ == cv[i as int].0,
                0 <= i < cv.len(),
                forall|t: int|
                    0 <= t < e ==> !((#[trigger] entities@[t])@.name == key@ && entities@[t]@.priority
                        == EntityPriority::Critical),
            ensures
                critical <==> critical_key(entities@, cv[i as int].0),
            decreases entities@.len() - e,
        {
            if eq_str(entities[e].name.0.as_str(), key) && entities[e].priority.is_critical() {
                critical = true;
                proof {
                    assert(critical_key(entities@, cv[i as int].0)) by {
                        assert(entities@[e as int]@.name == key@);
                    }
                }
                break ;
            }
            e = e + 1;
        }
        proof {
            if !critical && critical_key(entities@, cv[i as int].0) {
                let t = choose|t: int|
                    0 <= t < entities@.len() && (#[trigger] entities@[t])@.name == cv[i as int].0
                        && entities@[t]@.priority == EntityPriority::Critical;
                assert(false);
            }
        }
        if critical {
            let picked = crate::model::rule::clone_rules_vec(&conflicts[i].1);
            let ghost pickedv = dv_rules(picked@);
            let ghost pickedexec = picked@;
            let mut picked = picked;
            let ghost outpre = out@;
            out.append(&mut picked);
            proof {
                done = prevdone + cv[i as int].1;
                assert(pickedv == cv[i as int].1);
                assert(out@ == outpre + pickedexec);
                crate::model::rule::lemma_dv_rules_concat(outpre, pickedexec);
                assert(dv_rules(out@) == done);
            }
        } else {
            proof {
                done = prevdone + Seq::<RuleView>::empty();
                assert(dv_rules(out@) =~= done);
            }
        }
        proof {
            assert(prevdone + ((if critical_key(entities@, cv[i as int].0) {
                cv[i as int].1
            } else {
                Seq::<RuleView>::empty()
            }) + critical_union(entities@, cv.skip(i as int + 1))) =~= done + critical_union(
                entities@,
                cv.skip(i as int + 1),
            ));
        }
        i = i + 1;
    }
    proof {
        assert(cv.skip(i as int) =~= Seq::<(Seq<char>, Seq<RuleView>)>::empty());
        assert(done + critical_union(entities@, cv.skip(i as int)) =~= done);
    }
    crate::model::rule::canon_rules_vec(out)
}

/// Greedy coverage over the distinct rule lists: rules are taken by falling
/// membership count until the accumulated relation count reaches the number
/// of distinct lists.
pub fn recommend_policy_all(conflicts: &Vec<ConflictEntry>) -> (r: Vec<EntityRule>)
    ensures
        conflicts@.len() > 0 && dv_conflicts(conflicts@)[0].1.len() > 0 ==> dv_rules(r@).len() > 0,
        forall|j: int|
            0 <= j < dv_rules(r@).len() ==> listed_in(
                dv_conflicts(conflicts@),
                #[trigger] dv_rules(r@)[j],
            ),
        rules_distinct(dv_rules(r@)),
{
    let ghost cv = dv_conflicts(conflicts@);
    // Distinct rule lists.
    let mut distinct: Vec<Vec<EntityRule>> = Vec::new();
    let mut i: usize = 0;
    while i < conflicts.len()
        invariant
            0 <= i <= conflicts@.len(),
            cv == dv_conflicts(conflicts@),
            cv.len() == conflicts@.len(),
            i == 0 ==> distinct@.len() == 0,
            i > 0 && cv[0].1.len() > 0 ==> distinct@.len() > 0 && dv_rules(distinct@[0]@).len()
                > 0,
            forall|d: int, j: int|
                #![trigger dv_rules(distinct@[d]@)[j]]
                0 <= d < distinct@.len() && 0 <= j < dv_rules(distinct@[d]@).len() ==> listed_in(
                    cv,
                    dv_rules(distinct@[d]@)[j],
                ),
        decreases conflicts@.len() - i,
    {
        let mut dup = false;
        let mut d: usize = 0;
        while d < distinct.len()
            invariant_except_break
                !dup,
            invariant
                0 <= d <= distinct@.len(),
                0 <= i < conflicts@.len(),
            ensures
                dup ==> distinct@.len() > 0,
            decreases distinct@.len() - d,
        {
            if rule_lists_equal(&distinct[d], &conflicts[i].1) {
                dup = true;
                break ;
            }
            d = d + 1;
        }
        if !dup {
            let copy = crate::model::rule::clone_rules_vec(&conflicts[i].1);
            let ghost prevd = distinct@;
            distinct.push(copy);
            proof {
                assert forall|d2: int, j: int|
                    #![trigger dv_rules(distinct@[d2]@)[j]]
                    0 <= d2 < distinct@.len() && 0 <= j < dv_rules(
                        distinct@[d2]@,
                    ).len() implies listed_in(cv, dv_rules(distinct@[d2]@)[j]) by {
                    if d2 < prevd.len() {
                        assert(distinct@[d2] == prevd[d2]);
                    } else {
                        assert(dv_rules(distinct@[d2]@) == dv_rules(conflicts@[i as int].1@));
                        assert(cv[i as int].1 == dv_rules(conflicts@[i as int].1@));
                        assert(cv[i as int].1.contains(dv_rules(distinct@[d2]@)[j]));
                    }
                }
                if prevd.len() > 0 {
                    assert(distinct@[0] == prevd[0]);
                }
                if i == 0 {
                    assert(dv_rules(distinct@[0]@) == cv[0].1);
                }
            }
        } else {
            proof {
                if i == 0 {
                    assert(distinct@.len() > 0);
                    assert(false);
                }
            }
        }
        i = i + 1;
    }
    let threshold = distinct.len();
    // Count, per distinct rule, the number of lists it appears in.
    let mut counted: Vec<(EntityRule, usize)> = Vec::new();
    let mut d: usize = 0;
    while d < distinct.len()
        invariant
            0 <= d <= distinct@.len(),
            cv == dv_conflicts(conflicts@),
            d > 0 && dv_rules(distinct@[0]@).len() > 0 ==> counted@.len() > 0,
            forall|d2: int, j: int|
                #![trigger dv_rules(distinct@[d2]@)[j]]
                0 <= d2 < distinct@.len() && 0 <= j < dv_rules(distinct@[d2]@).len() ==> listed_in(
                    cv,
                    dv_rules(distinct@[d2]@)[j],
                ),
            forall|j: int|
                0 <= j < counted@.len() ==> listed_in(cv, (#[trigger] counted@[j]).0@),
            forall|c1: int, c2: int|
                0 <= c1 < c2 < counted@.len() ==> (#[trigger] counted@[c1]).0@ != (
                #[trigger] counted@[c2]).0@,
        decreases distinct@.len() - d,
    {
        let mut j: usize = 0;
        while j < distinct[d].len()
            invariant
                0 <= j <= distinct@[d as int]@.len(),
                0 <= d < distinct@.len(),
                cv == dv_conflicts(conflicts@),
                d > 0 && dv_rules(distinct@[0]@).len() > 0 ==> counted@.len() > 0,
                d == 0 && j > 0 ==> counted@.len() > 0,
                forall|d2: int, jj: int|
                    #![trigger dv_rules(distinct@[d2]@)[jj]]
                    0 <= d2 < distinct@.len() && 0 <= jj < dv_rules(distinct@[d2]@).len()
                        ==> listed_in(cv, dv_rules(distinct@[d2]@)[jj]),
                forall|jj: int|
                    0 <= jj < counted@.len() ==> listed_in(cv, (#[trigger] counted@[jj]).0@),
                forall|c1: int, c2: int|
                    0 <= c1 < c2 < counted@.len() ==> (#[trigger] counted@[c1]).0@ != (
                    #[trigger] counted@[c2]).0@,
            decreases distinct@[d as int]@.len() - j,
        {
            let rule = &distinct[d][j];
            let mut seen = false;
            let mut c: usize = 0;
            while c < counted.len()
                invariant_except_break
                    !seen,
                    0 <= c <= counted@.len(),
                    forall|c2: int| 0 <= c2 < c ==> (#[trigger] counted@[c2]).0@ != rule@,
                ensures
                    seen ==> c < counted@.len(),
                    !seen ==> forall|c2: int|
                        0 <= c2 < counted@.len() ==> (#[trigger] counted@[c2]).0@ != rule@,
                decreases counted@.len() - c,
            {
                if cmp_rule(&counted[c].0, rule) == 0 {
                    seen = true;
                    break ;
                }
                proof {
                    crate::model::rule::lemma_rule_cmp_zero(counted@[c as int].0@, rule@);
                }
                c = c + 1;
            }
            if seen {
                let ghost cpre = counted@;
                let entry = counted.remove(c);
                let newcount = if entry.1 < usize::MAX {
                    entry.1 + 1
                } else {
                    entry.1
                };
                let ghost prevcounted = counted@;
                counted.insert(c, (entry.0, newcount));
                proof {
                    assert forall|jj: int|
                        0 <= jj < counted@.len() implies listed_in(
                        cv,
                        (#[trigger] counted@[jj]).0@,
                    ) by {}
                    assert forall|c1: int, c2: int|
                        0 <= c1 < c2 < counted@.len() implies (#[trigger] counted@[c1]).0@ != (
                    #[trigger] counted@[c2]).0@ by {
                        assert(counted@[c1].0 == cpre[c1].0);
                        assert(counted@[c2].0 == cpre[c2].0);
                    }
                }
            } else {
                let copy = rule.clone();
                let ghost prevcounted = counted@;
                counted.push((copy, 1));
                proof {
                    assert(dv_rules(distinct@[d as int]@)[j as int] == distinct@[d as int]@[
                        j as int
                    ]@);
                    assert forall|jj: int|
                        0 <= jj < counted@.len() implies listed_in(
                        cv,
                        (#[trigger] counted@[jj]).0@,
                    ) by {
                        if jj < prevcounted.len() {
                            assert(counted@[jj] == prevcounted[jj]);
                        } else {
                            assert(counted@[jj].0@ == dv_rules(distinct@[d as int]@)[j as int]);
                        }
                    }
                    assert forall|c1: int, c2: int|
                        0 <= c1 < c2 < counted@.len() implies (#[trigger] counted@[c1]).0@ != (
                    #[trigger] counted@[c2]).0@ by {
                        assert(counted@[c1] == prevcounted[c1]);
                        if c2 < prevcounted.len() {
                            assert(counted@[c2] == prevcounted[c2]);
                        } else {
                            assert(counted@[c2].0@ == rule@);
                            assert((#[trigger] prevcounted[c1]).0@ != rule@);
                        }
                    }
                }
            }
            j = j + 1;
        }
        d = d + 1;
    }
    // Sort by falling count, ties by rule order.
    let ghost ctotal = counted@.len();
    let mut sorted: Vec<(EntityRule, usize)> = Vec::new();
    let mut rest = counted;
    while rest.len() > 0
        invariant
            cv == dv_conflicts(conflicts@),
            sorted@.len() + rest@.len() == ctotal,
            forall|j: int| 0 <= j < rest@.len() ==> listed_in(cv, (#[trigger] rest@[j]).0@),
            forall|j: int| 0 <= j < sorted@.len() ==> listed_in(cv, (#[trigger] sorted@[j]).0@),
            forall|j1: int, j2: int|
                0 <= j1 < j2 < sorted@.len() ==> (#[trigger] sorted@[j1]).0@ != (
                #[trigger] sorted@[j2]).0@,
            forall|j1: int, j2: int|
                0 <= j1 < j2 < rest@.len() ==> (#[trigger] rest@[j1]).0@ != (
                #[trigger] rest@[j2]).0@,
            forall|j1: int, j2: int|
                0 <= j1 < sorted@.len() && 0 <= j2 < rest@.len() ==> (#[trigger] sorted@[j1]).0@
                    != (#[trigger] rest@[j2]).0@,
        decreases rest@.len(),
    {
        let ghost prevrest = rest@;
        let entry = rest.remove(0);
        proof {
            assert(entry == prevrest[0]);
            assert forall|j: int| 0 <= j < rest@.len() implies listed_in(
                cv,
                (#[trigger] rest@[j]).0@,
            ) by {
                assert(rest@[j] == prevrest[j + 1]);
            }
            assert forall|j1: int, j2: int|
                0 <= j1 < j2 < rest@.len() implies (#[trigger] rest@[j1]).0@ != (
            #[trigger] rest@[j2]).0@ by {
                assert(rest@[j1] == prevrest[j1 + 1]);
                assert(rest@[j2] == prevrest[j2 + 1]);
            }
        }
        let n = sorted.len();
        let mut p: usize = 0;
        while p < n
            invariant_except_break
                0 <= p <= n,
                n == sorted@.len(),
            ensures
                p <= n,
            decreases n - p,
        {
            if sorted[p].1 < entry.1 || (sorted[p].1 == entry.1 && cmp_rule(&entry.0, &sorted[p].0)
                < 0) {
                break ;
            }
            p = p + 1;
        }
        let ghost prevsorted = sorted@;
        sorted.insert(p, entry);
        proof {
            assert forall|j: int| 0 <= j < sorted@.len() implies listed_in(
                cv,
                (#[trigger] sorted@[j]).0@,
            ) by {
                if j < p {
                    assert(sorted@[j] == prevsorted[j]);
                } else if j == p {
                    assert(sorted@[j] == prevrest[0]);
                } else {
                    assert(sorted@[j] == prevsorted[j - 1]);
                }
            }
            assert forall|j1: int, j2: int|
                0 <= j1 < j2 < sorted@.len() implies (#[trigger] sorted@[j1]).0@ != (
            #[trigger] sorted@[j2]).0@ by {
                if j1 < p {
                    assert(sorted@[j1] == prevsorted[j1]);
                } else if j1 == p {
                    assert(sorted@[j1] == prevrest[0]);
                } else {
                    assert(sorted@[j1] == prevsorted[j1 - 1]);
                }
                if j2 < p {
                    assert(sorted@[j2] == prevsorted[j2]);
                } else if j2 == p {
                    assert(sorted@[j2] == prevrest[0]);
                } else {
                    assert(sorted@[j2] == prevsorted[j2 - 1]);
                }
            }
            assert forall|j1: int, j2: int|
                0 <= j1 < sorted@.len() && 0 <= j2 < rest@.len() implies (
            #[trigger] sorted@[j1]).0@ != (#[trigger] rest@[j2]).0@ by {
                assert(rest@[j2] == prevrest[j2 + 1]);
                if j1 < p {
                    assert(sorted@[j1] == prevsorted[j1]);
                } else if j1 == p {
                    assert(sorted@[j1] == prevrest[0]);
                } else {
                    assert(sorted@[j1] == prevsorted[j1 - 1]);
                }
            }
        }
    }
    // Greedy accumulation until the relation count reaches the threshold.
    let mut out: Vec<EntityRule> = Vec::new();
    let mut sum: usize = 0;
    let mut s: usize = 0;
    while s < sorted.len()
        invariant
            0 <= s <= sorted@.len(),
            cv == dv_conflicts(conflicts@),
            forall|j: int| 0 <= j < sorted@.len() ==> listed_in(cv, (#[trigger] sorted@[j]).0@),
            forall|j: int|
                0 <= j < dv_rules(out@).len() ==> listed_in(cv, #[trigger] dv_rules(out@)[j]),
            s == 0 ==> sum == 0 && out@.len() == 0,
            threshold > 0 && s > 0 ==> out@.len() > 0,
            forall|j1: int, j2: int|
                0 <= j1 < j2 < sorted@.len() ==> (#[trigger] sorted@[j1]).0@ != (
                #[trigger] sorted@[j2]).0@,
            forall|j: int|
                0 <= j < dv_rules(out@).len() ==> exists|k: int|
                    0 <= k < s && #[trigger] dv_rules(out@)[j] == (#[trigger] sorted@[k]).0@,
            rules_distinct(dv_rules(out@)),
        decreases sorted@.len() - s,
    {
        let relation = sorted[s].0.targets().len();
        if sum < threshold {
            let rule = sorted[s].0.clone();
            let ghost prevout = dv_rules(out@);
            out.push(rule);
            proof {
                assert(dv_rules(out@) =~= prevout.push(sorted@[s as int].0@));
                assert forall|j: int| 0 <= j < dv_rules(out@).len() implies listed_in(
                    cv,
                    #[trigger] dv_rules(out@)[j],
                ) by {
                    if j < prevout.len() {
                        assert(dv_rules(out@)[j] == prevout[j]);
                    } else {
                        assert(dv_rules(out@)[j] == sorted@[s as int].0@);
                    }
                }
                assert forall|j: int| 0 <= j < dv_rules(out@).len() implies exists|k: int|
                    0 <= k < s + 1 && #[trigger] dv_rules(out@)[j] == (
                #[trigger] sorted@[k]).0@ by {
                    if j < prevout.len() {
                        assert(dv_rules(out@)[j] == prevout[j]);
                        let k0 = choose|k0: int|
                            0 <= k0 < s && prevout[j] == (#[trigger] sorted@[k0]).0@;
                        assert(dv_rules(out@)[j] == (#[trigger] sorted@[k0]).0@);
                    } else {
                        assert(dv_rules(out@)[j] == (#[trigger] sorted@[s as int]).0@);
                    }
                }
                assert(rules_distinct(dv_rules(out@))) by {
                    assert forall|j1: int, j2: int|
                        #![trigger dv_rules(out@)[j1], dv_rules(out@)[j2]]
                        0 <= j1 < j2 < dv_rules(out@).len() implies dv_rules(out@)[j1]
                        != dv_rules(out@)[j2] by {
                        if j2 < prevout.len() {
                            assert(dv_rules(out@)[j1] == prevout[j1]);
                            assert(dv_rules(out@)[j2] == prevout[j2]);
                        } else {
                            assert(dv_rules(out@)[j1] == prevout[j1]);
                            assert(dv_rules(out@)[j2] == sorted@[s as int].0@);
                            let k0 = choose|k0: int|
                                0 <= k0 < s && prevout[j1] == (#[trigger] sorted@[k0]).0@;
                            assert((#[trigger] sorted@[k0]).0@ != (
                            #[trigger] sorted@[s as int]).0@);
                        }
                    }
                }
            }
        }
        if sum > usize::MAX - relation {
            sum = usize::MAX;
        } else {
            sum = sum + relation;
        }
        proof {
            assert forall|j: int| 0 <= j < dv_rules(out@).len() implies exists|k: int|
                0 <= k < s + 1 && #[trigger] dv_rules(out@)[j] == (#[trigger] sorted@[k]).0@ by {
                if exists|k0: int|
                    0 <= k0 < s && dv_rules(out@)[j] == (#[trigger] sorted@[k0]).0@ {
                    let k0 = choose|k0: int|
                        0 <= k0 < s && dv_rules(out@)[j] == (#[trigger] sorted@[k0]).0@;
                    assert(0 <= k0 < s + 1 && dv_rules(out@)[j] == (#[trigger] sorted@[k0]).0@);
                }
            }
        }
        s = s + 1;
    }
    proof {
        if cv.len() > 0 && cv[0].1.len() > 0 {
            assert(distinct@.len() > 0 && dv_rules(distinct@[0]@).len() > 0);
            assert(ctotal > 0);
            assert(sorted@.len() > 0);
            assert(threshold > 0);
            assert(out@.len() > 0);
            assert(dv_rules(out@).len() > 0);
        }
    }
    out
}

/// Whether the two rule lists are equal element for element.
pub fn rule_lists_equal(a: &Vec<EntityRule>, b: &Vec<EntityRule>) -> (r: bool)
    ensures
        r == (dv_rules(a@) == dv_rules(b@)),
{
    if a.len() != b.len() {
        proof {
            assert(dv_rules(a@).len() != dv_rules(b@).len());
        }
        return false;
    }
    let mut i: usize = 0;
    while i < a.len()
        invariant
            0 <= i <= a@.len(),
            a@.len() == b@.len(),
            forall|j: int| 0 <= j < i ==> dv_rules(a@)[j] == dv_rules(b@)[j],
        decreases a@.len() - i,
    {
        let c = cmp_rule(&a[i], &b[i]);
        proof {
            crate::model::rule::lemma_rule_cmp_zero(a@[i as int]@, b@[i as int]@);
        }
        if c != 0 {
            proof {
                assert(dv_rules(a@)[i as int] == a@[i as int]@);
                assert(dv_rules(b@)[i as int] == b@[i as int]@);
            }
            return false;
        }
        i = i + 1;
    }
    proof {
        assert(dv_rules(a@) =~= dv_rules(b@));
    }
    true
}

/// Chooses a removal set under the policy; an empty critical pick falls back
/// to the greedy policy. The result is non-empty whenever the conflict map
/// has an entry whose rule list is non-empty, and every picked rule appears
/// in some conflict list.
pub fn recommend(entities: &Vec<Entity>, conflicts: &Vec<ConflictEntry>, policy: RecommendPolicy)
    -> (r: Vec<EntityRule>)
    ensures
        conflicts@.len() > 0 && dv_conflicts(conflicts@)[0].1.len() > 0 ==> dv_rules(r@).len() > 0,
        forall|j: int|
            0 <= j < dv_rules(r@).len() ==> listed_in(
                dv_conflicts(conflicts@),
                #[trigger] dv_rules(r@)[j],
            ),
{
    let ghost cv = dv_conflicts(conflicts@);
    let picked = match policy {
        RecommendPolicy::HighPriorityFirst => recommend_policy_high_priority_first(
            entities,
            conflicts,
        ),
        RecommendPolicy::All => recommend_policy_all(conflicts),
    };
    if picked.len() == 0 && matches!(policy, RecommendPolicy::HighPriorityFirst) {
        recommend_policy_all(conflicts)
    } else {
        proof {
            if policy == RecommendPolicy::HighPriorityFirst {
                let u = critical_union(entities@, cv);
                assert forall|j: int| 0 <= j < dv_rules(picked@).len() implies listed_in(
                    cv,
                    #[trigger] dv_rules(picked@)[j],
                ) by {
                    crate::model::rule::lemma_canon_rules_membership(u, dv_rules(picked@)[j]);
                    assert(dv_rules(picked@).contains(dv_rules(picked@)[j]));
                    lemma_critical_union_listed(entities@, cv, dv_rules(picked@)[j]);
                }
            }
        }
        picked
    }
}

} // verus!
