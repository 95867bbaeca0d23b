//! The unknown engine: reports every rule that references a name for which
//! no entity is defined.

use vstd::prelude::*;

use crate::model::entity::EntityView;
use crate::model::rule::{dv_rules, EntityRule, RuleView};
use crate::order::eq_str;
use crate::solver::map::{EntityMap, EntityMapView};
use crate::solver::solver::{canon_conflicts, dv_conflicts, ConflictEntry, SolverOutput};

verus! {

/// A name is defined when an entity carries it.
pub open spec fn is_defined(m: EntityMapView, n: Seq<char>) -> bool {
    exists|i: int| 0 <= i < m.entities.len() && (#[trigger] m.entities[i]).name == n
}

/// A rule is unknown when any of its targets is undefined.
pub open spec fn is_unknown_rule(m: EntityMapView, r: RuleView) -> bool {
    exists|t: int| 0 <= t < r.targets.len() && !is_defined(m, #[trigger] r.targets[t])
}

/// The unknown rules of a rule list, in order.
pub open spec fn unknown_filter(m: EntityMapView, rules: Seq<RuleView>) -> Seq<RuleView>
    decreases rules.len(),
{
    if rules.len() == 0 {
        Seq::empty()
    } else {
        (if is_unknown_rule(m, rules[0]) {
            seq![rules[0]]
        } else {
            Seq::empty()
        }) + unknown_filter(m, rules.drop_first())
    }
}

/// One raw conflict entry per entity with at least one unknown rule.
pub open spec fn unknown_entries(m: EntityMapView, es: Seq<EntityView>) -> Seq<
    (Seq<char>, Seq<RuleView>),
>
    decreases es.len(),
{
    if es.len() == 0 {
        Seq::empty()
    } else {
        (if unknown_filter(m, es[0].all_rules()).len() > 0 {
            seq![(es[0].name, unknown_filter(m, es[0].all_rules()))]
        } else {
            Seq::empty()
        }) + unknown_entries(m, es.drop_first())
    }
}

/// What the unknown verdict is: satisfiable exactly when no entity carries
/// an unknown rule; otherwise the canonical map of per-entity unknown rules.
pub open spec fn unknown_verdict(m: EntityMapView) -> crate::solver::solver::SolverOutputView {
    if unknown_entries(m, m.entities).len() == 0 {
        crate::solver::solver::SolverOutputView::Sat
    } else {
        crate::solver::solver::SolverOutputView::Conflict(
            canon_conflicts(unknown_entries(m, m.entities)),
        )
    }
}

fn name_defined(map: &EntityMap, n: &str) -> (r: bool)
    ensures
        r == is_defined(map@, n@),
{
    let mut i: usize = 0;
    while i < map.entities.len()
        invariant
            0 <= i <= map.entities@.len(),
            map@.entities.len() == map.entities@.len(),
            forall|j: int| 0 <= j < i ==> (#[trigger] map@.entities[j]).name != n@,
        decreases map.entities@.len() - i,
    {
        proof {
            assert(map@.entities[i as int] == map.entities@[i as int]@);
        }
        if eq_str(map.entities[i].name.0.as_str(), n) {
            return true;
        }
        i = i + 1;
    }
    false
}

fn rule_unknown(map: &EntityMap, rule: &EntityRule) -> (r: bool)
    ensures
        r == is_unknown_rule(map@, rule@),
{
    let targets = rule.targets();
    let mut t: usize = 0;
    while t < targets.len()
        invariant
            0 <= t <= targets@.len(),
            crate::model::rule::dv_names(targets@) == rule@.targets,
            rule@.targets.len() == targets@.len(),
            forall|j: int| 0 <= j < t ==> is_defined(map@, #[trigger] rule@.targets[j]),
        decreases targets@.len() - t,
    {
        proof {
            assert(rule@.targets[t as int] == targets@[t as int]@);
        }
        if !name_defined(map, targets[t].0.as_str()) {
            return true;
        }
        t = t + 1;
    }
    false
}

/// The unknown engine.
pub struct UnknownSolver;

impl UnknownSolver {
    pub fn new() -> (r: Self)
        ensures
            true,
    {
        UnknownSolver
    }

    /// Reports, per entity, the rules whose targets include an undefined
    /// name.
    pub fn solve(&self, map: &EntityMap) -> (r: SolverOutput)
        ensures
            r@ == unknown_verdict(map@),
    {
        let ghost m = map@;
        let ghost esv = m.entities;
        let mut raw: Vec<ConflictEntry> = Vec::new();
        let mut i: usize = 0;
        let ghost done = Seq::<(Seq<char>, Seq<RuleView>)>::empty();
        proof {
            assert(dv_conflicts(raw@) =~= done);
            assert(esv.skip(0) =~= esv);
            assert(done + unknown_entries(m, esv) =~= unknown_entries(m, esv));
        }
        while i < map.entities.len()
            invariant
                0 <= i <= map.entities@.len(),
                m == map@,
                esv == m.entities,
                esv.len() == map.entities@.len(),
                dv_conflicts(raw@) == done,
                unknown_entries(m, esv) == done + unknown_entries(m, esv.skip(i as int)),
            decreases map.entities@.len() - i,
        {
            proof {
                assert(esv.skip(i as int)[0] == esv[i as int]);
                assert(esv[i as int] == map.entities@[i as int]@);
                assert(esv.skip(i as int).drop_first() =~= esv.skip(i as int + 1));
            }
            let ghost prevdone = done;
            let e = &map.entities[i];
            let rules = e.rules();
            let ghost rulesv = esv[i as int].all_rules();
            let mut kept: Vec<EntityRule> = Vec::new();
            let mut j: usize = 0;
            let ghost fdone = Seq::<RuleView>::empty();
            proof {
                assert(dv_rules(kept@) =~= fdone);
                assert(rulesv.skip(0) =~= rulesv);
                assert(fdone + unknown_filter(m, rulesv) =~= unknown_filter(m, rulesv));
            }
            while j < rules.len()
                invariant
                    0 <= j <= rules@.len(),
                    m == map@,
                    dv_rules(rules@) == rulesv,
                    rulesv.len() == rules@.len(),
                    dv_rules(kept@) == fdone,
                    unknown_filter(m, rulesv) == fdone + unknown_filter(m, rulesv.skip(j as int)),
                decreases rules@.len() - j,
            {
                proof {
                    assert(rulesv.skip(j as int)[0] == rulesv[j as int]);
                    assert(rulesv[j as int] == rules@[j as int]@);
                    assert(rulesv.skip(j as int).drop_first() =~= rulesv.skip(j as int + 1));
                }
                let ghost prevfdone = fdone;
                if rule_unknown(map, &rules[j]) {
                    let r0 = rules[j].clone();
                    kept.push(r0);
                    proof {
                        fdone = prevfdone + seq![rulesv[j as int]];
                        assert(dv_rules(kept@) =~= fdone);
                    }
                } else {
                    proof {
                        fdone = prevfdone + Seq::<RuleView>::empty();
                        assert(dv_rules(kept@) =~= fdone);
                    }
                }
                proof {
                    assert(prevfdone + ((if is_unknown_rule(m, rulesv[j as int]) {
                        seq![rulesv[j as int]]
                    } else {
                        Seq::<RuleView>::empty()
                    }) + unknown_filter(m, rulesv.skip(j as int + 1))) =~= fdone + unknown_filter(
                        m,
                        rulesv.skip(j as int + 1),
                    ));
                }
                j = j + 1;
            }
            proof {
                assert(rulesv.skip(j as int) =~= Seq::<RuleView>::empty());
                assert(fdone + unknown_filter(m, rulesv.skip(j as int)) =~= fdone);
            }
            if kept.len() > 0 {
                let key = e.name.0.clone();
                let ghost prevraw = dv_conflicts(raw@);
                raw.push((key, kept));
                proof {
                    done = prevdone + seq![(esv[i as int].name, unknown_filter(m, rulesv))];
                    assert(dv_conflicts(raw@) =~= prevraw.push(
                        (raw@[raw@.len() - 1].0@, dv_rules(raw@[raw@.len() - 1].1@)),
                    ));
                    assert(dv_conflicts(raw@) =~= done);
                }
            } else {
                proof {
                    done = prevdone + Seq::<(Seq<char>, Seq<RuleView>)>::empty();
                    assert(dv_conflicts(raw@) =~= done);
                }
            }
            proof {
                assert(prevdone + ((if unknown_filter(m, rulesv).len() > 0 {
                    seq![(esv[i as int].name, unknown_filter(m, rulesv))]
                } else {
                    Seq::<(Seq<char>, Seq<RuleView>)>::empty()
                }) + unknown_entries(m, esv.skip(i as int + 1))) =~= done + unknown_entries(
                    m,
                    esv.skip(i as int + 1),
                ));
            }
            i = i + 1;
        }
        proof {
            assert(esv.skip(i as int) =~= Seq::<EntityView>::empty());
            assert(done + unknown_entries(m, esv.skip(i as int)) =~= done);
        }
        if raw.len() == 0 {
            SolverOutput::new_ok()
        } else {
            SolverOutput::new_conflict(raw)
        }
    }
}

/// The unknown verdict is a function of the map alone: two runs on equal
/// maps agree.
pub proof fn lemma_unknown_deterministic(
    m: EntityMapView,
    a: crate::solver::solver::SolverOutputView,
    b: crate::solver::solver::SolverOutputView,
)
    requires
        a == unknown_verdict(m),
        b == unknown_verdict(m),
    ensures
        a == b,
{
}

} // verus!
