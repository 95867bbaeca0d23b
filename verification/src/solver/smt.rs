//! The boolean-constraint engine: encodes every rule of the Entity Map as
//! clauses over one boolean variable per name, probes each universe name for
//! satisfiability, and reports a minimized set of offending rules for each
//! unschedulable name.

use vstd::prelude::*;

use crate::model::entity::{EntityName, EntityView};
use crate::model::env::Env;
use crate::model::rule::{dv_names, dv_rules, EntityRule, EntityRuleType, RuleView};
use crate::order::eq_str;
use crate::solver::map::{dv_strings, sib1, sib2, EntityMap, EntityMapView};
use crate::solver::sat::{
    check_formula, clause_sat, formula_sat, formula_wf, lit_sat, Lit,
};
use crate::solver::solver::{dv_conflicts, ConflictEntry, SolverOutput};

verus! {

// ------------------------------------------------------------------
// Semantics: selections and what a rule demands of one.
// ------------------------------------------------------------------
/// What a rule of entity `ename` demands of a selection of names: a require
/// rule forces at least one target along with the entity; an exclude rule
/// forbids each target together with the entity.
pub open spec fn rule_holds(sel: spec_fn(Seq<char>) -> bool, ename: Seq<char>, r: RuleView) -> bool {
    if r.rtype == EntityRuleType::Require {
        sel(ename) ==> exists|i: int| 0 <= i < r.targets.len() && sel(#[trigger] r.targets[i])
    } else {
        forall|i: int|
            0 <= i < r.targets.len() ==> !(sel(ename) && sel(#[trigger] r.targets[i]))
    }
}

/// Every rule of the entity holds under the selection.
pub open spec fn entity_rules_hold(sel: spec_fn(Seq<char>) -> bool, e: EntityView) -> bool {
    forall|i: int|
        0 <= i < e.all_rules().len() ==> rule_holds(sel, e.name, #[trigger] e.all_rules()[i])
}

/// Every rule of every entity of the map holds under the selection.
pub open spec fn map_rules_hold(sel: spec_fn(Seq<char>) -> bool, m: EntityMapView) -> bool {
    forall|i: int| 0 <= i < m.entities.len() ==> entity_rules_hold(sel, #[trigger] m.entities[i])
}

/// A name can be scheduled: some selection satisfies every rule and selects
/// it.
pub open spec fn schedulable(m: EntityMapView, n: Seq<char>) -> bool {
    exists|sel: spec_fn(Seq<char>) -> bool| map_rules_hold(sel, m) && sel(n)
}

/// Whether a non-dummy entity names `n` or targets it in a rule.
pub open spec fn entity_mentions(e: EntityView, n: Seq<char>) -> bool {
    !e.is_dummy() && (e.name == n || exists|j: int|
        0 <= j < e.all_rules().len() && (#[trigger] e.all_rules()[j]).has_target(n))
}

/// A name receives a boolean variable when a non-dummy entity mentions it.
pub open spec fn has_var(m: EntityMapView, n: Seq<char>) -> bool {
    exists|i: int| 0 <= i < m.entities.len() && entity_mentions(#[trigger] m.entities[i], n)
}

/// The engine probes exactly the universe names that carry a variable.
pub open spec fn probed(m: EntityMapView, n: Seq<char>) -> bool {
    m.names.contains(n) && has_var(m, n)
}

/// Every map rule whose rule view lies in `rules` holds under the selection.
pub open spec fn listed_rules_hold(
    sel: spec_fn(Seq<char>) -> bool,
    m: EntityMapView,
    rules: Seq<RuleView>,
) -> bool {
    forall|i: int, j: int|
        0 <= i < m.entities.len() && 0 <= j < (#[trigger] m.entities[i]).all_rules().len()
            && rules.contains(#[trigger] m.entities[i].all_rules()[j]) ==> rule_holds(
            sel,
            m.entities[i].name,
            m.entities[i].all_rules()[j],
        )
}

/// Some rule of some non-dummy entity of the map has this view.
pub open spec fn rule_of_map(m: EntityMapView, r: RuleView) -> bool {
    exists|i: int|
        0 <= i < m.entities.len() && !(#[trigger] m.entities[i]).is_dummy()
            && m.entities[i].all_rules().contains(r)
}

/// The conflict key a probed name reports under: a sibling of a split
/// original reports under the original, any other name under itself.
pub open spec fn is_key_of(sc: Seq<Seq<char>>, n: Seq<char>, k: Seq<char>) -> bool {
    (sc.contains(k) && (n == sib1(k) || n == sib2(k))) || (k == n && forall|s: Seq<char>|
        sc.contains(s) ==> n != sib1(s) && n != sib2(s))
}

// ------------------------------------------------------------------
// Variables
// ------------------------------------------------------------------
pub open spec fn names_unique(vs: Seq<Seq<char>>) -> bool {
    forall|i: int, j: int| 0 <= i < j < vs.len() ==> vs[i] != vs[j]
}

/// The selection an assignment over the variable table induces.
pub open spec fn sel_of(vs: Seq<Seq<char>>, asn: Seq<bool>) -> spec_fn(Seq<char>) -> bool {
    |n: Seq<char>| exists|i: int| 0 <= i < vs.len() && vs[i] == n && asn[i]
}

pub proof fn lemma_sel_at(vs: Seq<Seq<char>>, asn: Seq<bool>, v: int)
    requires
        names_unique(vs),
        0 <= v < vs.len(),
        asn.len() == vs.len(),
    ensures
        sel_of(vs, asn)(vs[v]) == asn[v],
{
    if sel_of(vs, asn)(vs[v]) {
        let i = choose|i: int| 0 <= i < vs.len() && vs[i] == vs[v] && asn[i];
        if i != v {
            assert(false);
        }
    }
}

/// Looks a name up in the variable table.
fn find_var(vars: &Vec<String>, n: &str) -> (r: Option<usize>)
    ensures
        match r {
            Some(i) => i < vars@.len() && vars@[i as int]@ == n@,
            None => !dv_strings(vars@).contains(n@),
        },
{
    let mut i: usize = 0;
    while i < vars.len()
        invariant
            0 <= i <= vars@.len(),
            forall|j: int| 0 <= j < i ==> dv_strings(vars@)[j] != n@,
        decreases vars@.len() - i,
    {
        proof {
            assert(dv_strings(vars@)[i as int] == vars@[i as int]@);
        }
        if eq_str(vars[i].as_str(), n) {
            return Some(i);
        }
        i = i + 1;
    }
    proof {
        if dv_strings(vars@).contains(n@) {
            let j = choose|j: int|
                0 <= j < dv_strings(vars@).len() && dv_strings(vars@)[j] == n@;
            assert(false);
        }
    }
    None
}

/// Adds a name to the variable table unless it is already present.
fn add_var(vars: Vec<String>, n: &str) -> (out: Vec<String>)
    ensures
        dv_strings(out@) == if dv_strings(vars@).contains(n@) {
            dv_strings(vars@)
        } else {
            dv_strings(vars@).push(n@)
        },
        names_unique(dv_strings(vars@)) ==> names_unique(dv_strings(out@)),
{
    let ghost orig = dv_strings(vars@);
    let mut out = vars;
    let mut i: usize = 0;
    let mut present = false;
    while i < out.len()
        invariant_except_break
            !present,
        invariant
            0 <= i <= out@.len(),
            dv_strings(out@) == orig,
            orig.len() == out@.len(),
            forall|j: int| 0 <= j < i ==> orig[j] != n@,
        ensures
            dv_strings(out@) == orig,
            present ==> orig.contains(n@),
            !present ==> !orig.contains(n@),
        decreases out@.len() - i,
    {
        proof {
            assert(orig[i as int] == out@[i as int]@);
        }
        if eq_str(out[i].as_str(), n) {
            present = true;
            break ;
        }
        i = i + 1;
    }
    if !present {
        out.push(n.to_owned());
        proof {
            assert(dv_strings(out@) =~= orig.push(n@));
            if names_unique(orig) {
                assert forall|a: int, b: int|
                    0 <= a < b < dv_strings(out@).len() implies dv_strings(out@)[a]
                    != dv_strings(out@)[b] by {
                    if b < orig.len() {
                    } else {
                        assert(dv_strings(out@)[b] == n@);
                        assert(orig.contains(orig[a]) == true);
                    }
                }
            }
        }
    }
    out
}

// ------------------------------------------------------------------
// Tracked clause groups
// ------------------------------------------------------------------
/// One asserted rule: the rule itself, the name of the entity that asserted
/// it, and the clauses that encode it.
pub struct TrackedGroup {
    pub rule: EntityRule,
    pub ename: Ghost<Seq<char>>,
    pub clauses: Vec<Vec<Lit>>,
}

/// The group's clauses are equivalent to its rule under every assignment.
pub open spec fn group_wf(g: TrackedGroup, vs: Seq<Seq<char>>) -> bool {
    &&& formula_wf(g.clauses.deep_view(), vs.len() as int)
    &&& vs.contains(g.ename@)
    &&& forall|i: int| 0 <= i < g.rule@.targets.len() ==> vs.contains(#[trigger] g.rule@.targets[i])
    &&& forall|asn: Seq<bool>|
        asn.len() == vs.len() ==> (formula_sat(asn, g.clauses.deep_view()) <==> rule_holds(
            sel_of(vs, asn),
            g.ename@,
            g.rule@,
        ))
}

/// Two selections that agree on an entity's name and a rule's targets agree
/// on the rule.
pub proof fn lemma_rule_holds_congr(
    sel1: spec_fn(Seq<char>) -> bool,
    sel2: spec_fn(Seq<char>) -> bool,
    ename: Seq<char>,
    r: RuleView,
)
    requires
        sel1(ename) == sel2(ename),
        forall|i: int| 0 <= i < r.targets.len() ==> sel1(#[trigger] r.targets[i]) == sel2(
            r.targets[i],
        ),
    ensures
        rule_holds(sel1, ename, r) == rule_holds(sel2, ename, r),
{
    if r.rtype == EntityRuleType::Require {
        if rule_holds(sel1, ename, r) && sel2(ename) {
            let i = choose|i: int| 0 <= i < r.targets.len() && sel1(#[trigger] r.targets[i]);
            assert(sel2(r.targets[i]));
        }
        if rule_holds(sel2, ename, r) && sel1(ename) {
            let i = choose|i: int| 0 <= i < r.targets.len() && sel2(#[trigger] r.targets[i]);
            assert(sel1(r.targets[i]));
        }
    }
}

/// The selection read back from an assignment built out of a selection
/// agrees with it on every tabled name.
pub proof fn lemma_sel_roundtrip(vs: Seq<Seq<char>>, sel: spec_fn(Seq<char>) -> bool, x: Seq<char>)
    requires
        names_unique(vs),
        vs.contains(x),
    ensures
        sel_of(vs, Seq::new(vs.len(), |i: int| sel(vs[i])))(x) == sel(x),
{
    let asn = Seq::new(vs.len(), |i: int| sel(vs[i]));
    let ix = choose|ix: int| 0 <= ix < vs.len() && vs[ix] == x;
    lemma_sel_at(vs, asn, ix);
}

/// Builds the clause group of one rule asserted by the entity whose variable
/// is `va`.
#[verifier::rlimit(50)]
fn build_group(rule: &EntityRule, va: usize, vars: &Vec<String>) -> (g: TrackedGroup)
    requires
        names_unique(dv_strings(vars@)),
        va < vars@.len(),
        forall|i: int|
            0 <= i < rule@.targets.len() ==> dv_strings(vars@).contains(
                #[trigger] rule@.targets[i],
            ),
    ensures
        g.rule@ == rule@,
        g.ename@ == vars@[va as int]@,
        group_wf(g, dv_strings(vars@)),
{
    let ghost vs = dv_strings(vars@);
    let ghost ename = vars@[va as int]@;
    let nvars = vars.len();
    let targets = rule.targets();
    let mut tvs: Vec<usize> = Vec::new();
    let mut i: usize = 0;
    while i < targets.len()
        invariant
            0 <= i <= targets@.len(),
            vs == dv_strings(vars@),
            nvars == vs.len(),
            dv_names(targets@) == rule@.targets,
            rule@.targets.len() == targets@.len(),
            forall|j: int|
                0 <= j < rule@.targets.len() ==> vs.contains(#[trigger] rule@.targets[j]),
            tvs@.len() == i,
            forall|j: int|
                0 <= j < i ==> (#[trigger] tvs@[j]) < vs.len() && vs[tvs@[j] as int]
                    == rule@.targets[j],
        decreases targets@.len() - i,
    {
        proof {
            assert(rule@.targets[i as int] == targets@[i as int]@);
        }
        match find_var(vars, targets[i].0.as_str()) {
            Some(v) => {
                tvs.push(v);
                proof {
                    assert(vs[v as int] == vars@[v as int]@);
                }
            },
            None => {
                proof {
                    assert(false);
                }
            },
        }
        i = i + 1;
    }
    let is_require = rule.is_require();
    let mut clauses: Vec<Vec<Lit>> = Vec::new();
    if is_require {
        let mut clause: Vec<Lit> = Vec::new();
        clause.push((va, false));
        let mut k: usize = 0;
        while k < tvs.len()
            invariant
                0 <= k <= tvs@.len(),
                clause@.len() == k + 1,
                clause@[0] == (va, false),
                forall|j: int| 0 <= j < k ==> clause@[j + 1] == (tvs@[j], true),
            decreases tvs@.len() - k,
        {
            clause.push((tvs[k], true));
            k = k + 1;
        }
        clauses.push(clause);
    } else {
        let mut k: usize = 0;
        while k < tvs.len()
            invariant
                0 <= k <= tvs@.len(),
                clauses@.len() == k,
                forall|j: int|
                    0 <= j < k ==> (#[trigger] clauses@[j])@.len() == 2 && clauses@[j]@[0] == (
                    va,
                    false,
                ) && clauses@[j]@[1] == (tvs@[j], false),
            decreases tvs@.len() - k,
        {
            let mut clause: Vec<Lit> = Vec::new();
            clause.push((va, false));
            clause.push((tvs[k], false));
            clauses.push(clause);
            k = k + 1;
        }
    }
    let g = TrackedGroup { rule: rule.clone(), ename: Ghost(ename), clauses };
    proof {
        let f = g.clauses.deep_view();
        assert(vs.contains(ename)) by {
            assert(vs[va as int] == ename);
        }
        if is_require {
            assert(f.len() == 1);
            assert(f[0] =~= g.clauses@[0]@);
            let c = f[0];
            assert(c.len() == tvs@.len() + 1);
            assert forall|asn: Seq<bool>| asn.len() == vs.len() implies (formula_sat(asn, f)
                <==> rule_holds(sel_of(vs, asn), ename, g.rule@)) by {
                lemma_sel_at(vs, asn, va as int);
                let sel = sel_of(vs, asn);
                if formula_sat(asn, f) {
                    assert(clause_sat(asn, c));
                    let k = choose|k: int| 0 <= k < c.len() && lit_sat(asn, c[k]);
                    if k == 0 {
                        assert(!asn[va as int]);
                        assert(!sel(ename));
                    } else {
                        assert(c[k] == (tvs@[k - 1], true));
                        assert(asn[tvs@[k - 1] as int]);
                        lemma_sel_at(vs, asn, tvs@[k - 1] as int);
                        assert(sel(g.rule@.targets[k - 1]));
                        assert(rule_holds(sel, ename, g.rule@));
                    }
                }
                if rule_holds(sel, ename, g.rule@) {
                    if !sel(ename) {
                        assert(lit_sat(asn, c[0]));
                        assert(clause_sat(asn, c));
                    } else {
                        let t = choose|t: int|
                            0 <= t < g.rule@.targets.len() && sel(#[trigger] g.rule@.targets[t]);
                        lemma_sel_at(vs, asn, tvs@[t] as int);
                        assert(asn[tvs@[t] as int]);
                        assert(lit_sat(asn, c[t + 1]));
                        assert(clause_sat(asn, c));
                    }
                    assert(formula_sat(asn, f)) by {
                        assert(forall|q: int| 0 <= q < f.len() ==> f[q] == c);
                    }
                }
            }
        } else {
            assert(f.len() == tvs@.len());
            assert forall|q: int| 0 <= q < f.len() implies #[trigger] f[q] =~= g.clauses@[q]@ by {}
            assert forall|asn: Seq<bool>| asn.len() == vs.len() implies (formula_sat(asn, f)
                <==> rule_holds(sel_of(vs, asn), ename, g.rule@)) by {
                lemma_sel_at(vs, asn, va as int);
                let sel = sel_of(vs, asn);
                if formula_sat(asn, f) {
                    assert forall|t: int| 0 <= t < g.rule@.targets.len() implies !(sel(ename)
                        && sel(#[trigger] g.rule@.targets[t])) by {
                        assert(clause_sat(asn, f[t]));
                        let k = choose|k: int| 0 <= k < f[t].len() && lit_sat(asn, f[t][k]);
                        lemma_sel_at(vs, asn, tvs@[t] as int);
                        if k == 0 {
                            assert(!asn[va as int]);
                        } else {
                            assert(f[t][k] == (tvs@[t], false));
                            assert(!asn[tvs@[t] as int]);
                        }
                    }
                }
                if rule_holds(sel, ename, g.rule@) {
                    assert forall|q: int| 0 <= q < f.len() implies clause_sat(
                        asn,
                        #[trigger] f[q],
                    ) by {
                        assert(!(sel(ename) && sel(g.rule@.targets[q])));
                        lemma_sel_at(vs, asn, tvs@[q] as int);
                        if !sel(ename) {
                            assert(lit_sat(asn, f[q][0]));
                        } else {
                            assert(lit_sat(asn, f[q][1]));
                        }
                    }
                }
            }
        }
        assert(formula_wf(f, vs.len() as int)) by {
            assert forall|q: int| 0 <= q < f.len() implies crate::solver::sat::clause_wf(
                #[trigger] f[q],
                vs.len() as int,
            ) by {
                assert forall|l: int| 0 <= l < f[q].len() implies (#[trigger] f[q][l]).0
                    < vs.len() by {
                    if is_require {
                        if l > 0 {
                            assert(f[q][l] == (tvs@[l - 1], true));
                        }
                    } else {
                        if l > 0 {
                            assert(f[q][l] == (tvs@[q], false));
                        }
                    }
                }
            }
        }
        assert(group_wf(g, vs));
    }
    g
}

// ------------------------------------------------------------------
// Variable collection
// ------------------------------------------------------------------
/// The names one entity contributes to the variable table.
pub open spec fn mention_entry(e: EntityView) -> Seq<Seq<char>> {
    if e.is_dummy() {
        Seq::empty()
    } else {
        seq![e.name] + crate::solver::map::targets_of_rules(e.requires)
            + crate::solver::map::targets_of_rules(e.excludes)
    }
}

pub open spec fn mentioned_seq(es: Seq<EntityView>) -> Seq<Seq<char>>
    decreases es.len(),
{
    if es.len() == 0 {
        Seq::empty()
    } else {
        mention_entry(es[0]) + mentioned_seq(es.drop_first())
    }
}

proof fn lemma_targets_contains(rs: Seq<RuleView>, n: Seq<char>)
    ensures
        crate::solver::map::targets_of_rules(rs).contains(n) <==> exists|j: int|
            0 <= j < rs.len() && (#[trigger] rs[j]).has_target(n),
    decreases rs.len(),
{
    let t = crate::solver::map::targets_of_rules(rs);
    if rs.len() == 0 {
        if t.contains(n) {
            let i = choose|i: int| 0 <= i < t.len() && t[i] == n;
        }
    } else {
        lemma_targets_contains(rs.drop_first(), n);
        let head = rs[0].targets;
        let rest = crate::solver::map::targets_of_rules(rs.drop_first());
        if t.contains(n) {
            let i = choose|i: int| 0 <= i < t.len() && t[i] == n;
            if i < head.len() {
                assert(rs[0].has_target(n));
            } else {
                assert(rest[i - head.len()] == n);
                assert(rest.contains(n));
                let j = choose|j: int|
                    0 <= j < rs.drop_first().len() && (#[trigger] rs.drop_first()[j]).has_target(n);
                assert(rs[j + 1].has_target(n));
            }
        }
        if exists|j: int| 0 <= j < rs.len() && (#[trigger] rs[j]).has_target(n) {
            let j = choose|j: int| 0 <= j < rs.len() && (#[trigger] rs[j]).has_target(n);
            if j == 0 {
                let ti = choose|ti: int| 0 <= ti < head.len() && head[ti] == n;
                assert(t[ti] == n);
            } else {
                assert(rs.drop_first()[j - 1].has_target(n));
                let i = choose|i: int| 0 <= i < rest.len() && rest[i] == n;
                assert(t[head.len() + i] == n);
            }
        }
    }
}

proof fn lemma_mention_entry(e: EntityView, n: Seq<char>)
    ensures
        mention_entry(e).contains(n) <==> entity_mentions(e, n),
{
    lemma_targets_contains(e.requires, n);
    lemma_targets_contains(e.excludes, n);
    crate::solver::map::lemma_targets_of_rules_concat(e.requires, e.excludes);
    let me = mention_entry(e);
    if e.is_dummy() {
        if me.contains(n) {
            let i = choose|i: int| 0 <= i < me.len() && me[i] == n;
        }
    } else {
        let tr = crate::solver::map::targets_of_rules(e.requires);
        let te = crate::solver::map::targets_of_rules(e.excludes);
        let ta = crate::solver::map::targets_of_rules(e.all_rules());
        assert(ta == tr + te);
        lemma_targets_contains(e.all_rules(), n);
        if me.contains(n) {
            let i = choose|i: int| 0 <= i < me.len() && me[i] == n;
            if i == 0 {
                assert(e.name == n);
            } else if i < 1 + tr.len() {
                assert(tr[i - 1] == n);
                assert(ta[i - 1] == n);
                assert(ta.contains(n));
            } else {
                assert(te[i - 1 - tr.len()] == n);
                assert(ta[i - 1] == n);
                assert(ta.contains(n));
            }
        }
        if entity_mentions(e, n) {
            if e.name == n {
                assert(me[0] == n);
            } else {
                assert(ta.contains(n));
                let i = choose|i: int| 0 <= i < ta.len() && ta[i] == n;
                assert(me[i + 1] == n);
            }
        }
    }
}

proof fn lemma_mentioned_contains(es: Seq<EntityView>, n: Seq<char>)
    ensures
        mentioned_seq(es).contains(n) <==> exists|i: int|
            0 <= i < es.len() && entity_mentions(#[trigger] es[i], n),
    decreases es.len(),
{
    let t = mentioned_seq(es);
    if es.len() == 0 {
        if t.contains(n) {
            let i = choose|i: int| 0 <= i < t.len() && t[i] == n;
        }
    } else {
        lemma_mentioned_contains(es.drop_first(), n);
        lemma_mention_entry(es[0], n);
        let head = mention_entry(es[0]);
        let rest = mentioned_seq(es.drop_first());
        if t.contains(n) {
            let i = choose|i: int| 0 <= i < t.len() && t[i] == n;
            if i < head.len() {
                assert(head.contains(n));
            } else {
                assert(rest[i - head.len()] == n);
                assert(rest.contains(n));
                let j = choose|j: int|
                    0 <= j < es.drop_first().len() && entity_mentions(
                        #[trigger] es.drop_first()[j],
                        n,
                    );
                assert(entity_mentions(es[j + 1], n));
            }
        }
        if exists|i: int| 0 <= i < es.len() && entity_mentions(#[trigger] es[i], n) {
            let i = choose|i: int| 0 <= i < es.len() && entity_mentions(#[trigger] es[i], n);
            if i == 0 {
                let hi = choose|hi: int| 0 <= hi < head.len() && head[hi] == n;
                assert(t[hi] == n);
            } else {
                assert(entity_mentions(es.drop_first()[i - 1], n));
                let ri = choose|ri: int| 0 <= ri < rest.len() && rest[ri] == n;
                assert(t[head.len() + ri] == n);
            }
        }
    }
}

/// Collects the variable table: every name a non-dummy entity mentions, each
/// once.
fn collect_vars(map: &EntityMap) -> (vars: Vec<String>)
    ensures
        names_unique(dv_strings(vars@)),
        forall|n: Seq<char>| #[trigger]
            dv_strings(vars@).contains(n) <==> has_var(map@, n),
{
    let ghost esv = map@.entities;
    let mut gathered: Vec<EntityName> = Vec::new();
    let mut i: usize = 0;
    let ghost done = Seq::<Seq<char>>::empty();
    proof {
        assert(dv_names(gathered@) =~= done);
        assert(esv.skip(0) =~= esv);
        assert(done + mentioned_seq(esv) =~= mentioned_seq(esv));
    }
    while i < map.entities.len()
        invariant
            0 <= i <= map.entities@.len(),
            esv == map@.entities,
            esv.len() == map.entities@.len(),
            dv_names(gathered@) == done,
            mentioned_seq(esv) == done + mentioned_seq(esv.skip(i as int)),
        decreases map.entities@.len() - i,
    {
        proof {
            assert(esv.skip(i as int)[0] == esv[i as int]);
            assert(esv[i as int] == map.entities@[i as int]@);
            assert(esv.skip(i as int).drop_first() =~= esv.skip(i as int + 1));
        }
        let ghost prevdone = done;
        let e = &map.entities[i];
        if !e.is_dummy() {
            let mut acc: Vec<EntityName> = Vec::new();
            acc.push(e.name.clone());
            proof {
                assert(dv_names(acc@) =~= seq![esv[i as int].name]);
            }
            let acc = crate::solver::map::with_rule_targets(acc, &e.requires);
            let mut acc = crate::solver::map::with_rule_targets(acc, &e.excludes);
            let ghost accv = dv_names(acc@);
            let ghost gpre = dv_names(gathered@);
            gathered.append(&mut acc);
            proof {
                done = prevdone + mention_entry(esv[i as int]);
                assert(accv =~= mention_entry(esv[i as int]));
                crate::solver::map::lemma_dv_names_concat(gathered@.take(gpre.len() as int), Seq::empty());
                assert(dv_names(gathered@) =~= gpre + accv);
                assert(dv_names(gathered@) =~= done);
            }
        } else {
            proof {
                done = prevdone + mention_entry(esv[i as int]);
                assert(mention_entry(esv[i as int]) =~= Seq::<Seq<char>>::empty());
                assert(dv_names(gathered@) =~= done);
            }
        }
        proof {
            assert(prevdone + (mention_entry(esv[i as int]) + mentioned_seq(
                esv.skip(i as int + 1),
            )) =~= done + mentioned_seq(esv.skip(i as int + 1)));
        }
        i = i + 1;
    }
    proof {
        assert(esv.skip(i as int) =~= Seq::<EntityView>::empty());
        assert(done + mentioned_seq(esv.skip(i as int)) =~= done);
    }
    // Deduplicate, keeping the order of first mention.
    let ghost gv = dv_names(gathered@);
    let mut vars: Vec<String> = Vec::new();
    let mut i: usize = 0;
    proof {
        assert(dv_strings(vars@) =~= Seq::<Seq<char>>::empty());
    }
    while i < gathered.len()
        invariant
            0 <= i <= gathered@.len(),
            gv == dv_names(gathered@),
            gv.len() == gathered@.len(),
            names_unique(dv_strings(vars@)),
            forall|n: Seq<char>| #[trigger]
                dv_strings(vars@).contains(n) <==> gv.take(i as int).contains(n),
        decreases gathered@.len() - i,
    {
        proof {
            assert(gv[i as int] == gathered@[i as int]@);
        }
        let ghost prevv = dv_strings(vars@);
        let vars2 = add_var(vars, gathered[i].0.as_str());
        vars = vars2;
        proof {
            assert forall|n: Seq<char>| #[trigger]
                dv_strings(vars@).contains(n) <==> gv.take(i as int + 1).contains(n) by {
                if prevv.contains(gv[i as int]) {
                    assert(dv_strings(vars@) == prevv);
                } else {
                    assert(dv_strings(vars@) == prevv.push(gv[i as int]));
                }
                if dv_strings(vars@).contains(n) {
                    if prevv.contains(n) {
                        let j = choose|j: int|
                            0 <= j < gv.take(i as int).len() && gv.take(i as int)[j] == n;
                        assert(gv.take(i as int + 1)[j] == n);
                    } else {
                        let j = choose|j: int|
                            0 <= j < dv_strings(vars@).len() && dv_strings(vars@)[j] == n;
                        assert(n == gv[i as int]);
                        assert(gv.take(i as int + 1)[i as int] == n);
                    }
                }
                if gv.take(i as int + 1).contains(n) {
                    let j = choose|j: int|
                        0 <= j < gv.take(i as int + 1).len() && #[trigger] gv.take(
                            i as int + 1,
                        )[j] == n;
                    if j < i {
                        assert(gv.take(i as int)[j] == n);
                        assert(prevv.contains(n));
                        let pj = choose|pj: int| 0 <= pj < prevv.len() && prevv[pj] == n;
                        assert(dv_strings(vars@)[pj] == n);
                    } else {
                        assert(n == gv[i as int]);
                        if prevv.contains(gv[i as int]) {
                            let pj = choose|pj: int|
                                0 <= pj < prevv.len() && prevv[pj] == n;
                            assert(dv_strings(vars@)[pj] == n);
                        } else {
                            assert(dv_strings(vars@)[prevv.len() as int] == n);
                        }
                    }
                }
            }
        }
        i = i + 1;
    }
    proof {
        assert(gv.take(i as int) =~= gv);
        assert forall|n: Seq<char>| #[trigger]
            dv_strings(vars@).contains(n) <==> has_var(map@, n) by {
            lemma_mentioned_contains(esv, n);
        }
    }
    vars
}

// ------------------------------------------------------------------
// Encoding
// ------------------------------------------------------------------
/// The (entity name, rule) pairs of one entity, in rule order.
pub open spec fn entity_pairs(e: EntityView) -> Seq<(Seq<char>, RuleView)> {
    Seq::new(e.all_rules().len(), |j: int| (e.name, e.all_rules()[j]))
}

/// The asserted pairs of the whole map, in entity order.
pub open spec fn spec_pairs(es: Seq<EntityView>) -> Seq<(Seq<char>, RuleView)>
    decreases es.len(),
{
    if es.len() == 0 {
        Seq::empty()
    } else {
        entity_pairs(es[0]) + spec_pairs(es.drop_first())
    }
}

/// The (entity name, rule) pairs a group list carries.
pub open spec fn pairs_of(gs: Seq<TrackedGroup>) -> Seq<(Seq<char>, RuleView)> {
    Seq::new(gs.len(), |k: int| (gs[k].ename@, gs[k].rule@))
}

/// Every asserted pair names an entity and one of its rules.
pub proof fn lemma_spec_pairs_origin(es: Seq<EntityView>, k: int)
    requires
        0 <= k < spec_pairs(es).len(),
    ensures
        exists|i: int, j: int|
            #![trigger es[i].all_rules()[j]]
            0 <= i < es.len() && 0 <= j < es[i].all_rules().len() && spec_pairs(es)[k] == (
            es[i].name,
            es[i].all_rules()[j],
            ),
    decreases es.len(),
{
    let head = entity_pairs(es[0]);
    if k < head.len() {
        assert(spec_pairs(es)[k] == (es[0].name, es[0].all_rules()[k]));
    } else {
        lemma_spec_pairs_origin(es.drop_first(), k - head.len());
        let (i, j) = choose|i: int, j: int|
            #![trigger es.drop_first()[i].all_rules()[j]]
            0 <= i < es.drop_first().len() && 0 <= j < es.drop_first()[i].all_rules().len()
                && spec_pairs(es.drop_first())[k - head.len()] == (
            es.drop_first()[i].name,
            es.drop_first()[i].all_rules()[j],
            );
        assert(es.drop_first()[i] == es[i + 1]);
        assert(spec_pairs(es)[k] == (es[i + 1].name, es[i + 1].all_rules()[j]));
    }
}

/// Every rule of every entity appears among the asserted pairs.
pub proof fn lemma_spec_pairs_complete(es: Seq<EntityView>, i: int, j: int)
    requires
        0 <= i < es.len(),
        0 <= j < es[i].all_rules().len(),
    ensures
        exists|k: int|
            0 <= k < spec_pairs(es).len() && #[trigger] spec_pairs(es)[k] == (
            es[i].name,
            es[i].all_rules()[j],
            ),
    decreases es.len(),
{
    let head = entity_pairs(es[0]);
    if i == 0 {
        assert(spec_pairs(es)[j] == (es[0].name, es[0].all_rules()[j]));
    } else {
        lemma_spec_pairs_complete(es.drop_first(), i - 1, j);
        let k = choose|k: int|
            0 <= k < spec_pairs(es.drop_first()).len() && #[trigger] spec_pairs(
                es.drop_first(),
            )[k] == (es.drop_first()[i - 1].name, es.drop_first()[i - 1].all_rules()[j]);
        assert(es.drop_first()[i - 1] == es[i]);
        assert(spec_pairs(es)[head.len() + k] == (es[i].name, es[i].all_rules()[j]));
    }
}

/// Encodes every rule of every non-dummy entity as a tracked clause group.
fn encode(map: &EntityMap, vars: &Vec<String>) -> (groups: Vec<TrackedGroup>)
    requires
        names_unique(dv_strings(vars@)),
        forall|n: Seq<char>| #[trigger] dv_strings(vars@).contains(n) <==> has_var(map@, n),
    ensures
        forall|gi: int|
            0 <= gi < groups@.len() ==> group_wf(#[trigger] groups@[gi], dv_strings(vars@)),
        pairs_of(groups@) == spec_pairs(map@.entities),
{
    let ghost vs = dv_strings(vars@);
    let ghost esv = map@.entities;
    let mut groups: Vec<TrackedGroup> = Vec::new();
    let mut i: usize = 0;
    let ghost done = Seq::<(Seq<char>, RuleView)>::empty();
    proof {
        assert(pairs_of(groups@) =~= done);
        assert(esv.skip(0) =~= esv);
        assert(done + spec_pairs(esv) =~= spec_pairs(esv));
    }
    while i < map.entities.len()
        invariant
            0 <= i <= map.entities@.len(),
            vs == dv_strings(vars@),
            names_unique(vs),
            forall|n: Seq<char>| #[trigger] vs.contains(n) <==> has_var(map@, n),
            esv == map@.entities,
            esv.len() == map.entities@.len(),
            forall|gi: int| 0 <= gi < groups@.len() ==> group_wf(#[trigger] groups@[gi], vs),
            pairs_of(groups@) == done,
            spec_pairs(esv) == done + spec_pairs(esv.skip(i as int)),
        decreases map.entities@.len() - i,
    {
        proof {
            assert(esv.skip(i as int)[0] == esv[i as int]);
            assert(esv[i as int] == map.entities@[i as int]@);
            assert(esv.skip(i as int).drop_first() =~= esv.skip(i as int + 1));
        }
        let ghost prevdone = done;
        let e = &map.entities[i];
        let ghost epairs = entity_pairs(esv[i as int]);
        let reqlen = e.requires.len();
        if !e.is_dummy() {
            proof {
                assert(entity_mentions(esv[i as int], esv[i as int].name));
                assert(has_var(map@, esv[i as int].name));
                assert(vs.contains(esv[i as int].name));
            }
            let va = match find_var(vars, e.name.0.as_str()) {
                Some(v) => v,
                None => {
                    proof {
                        assert(false);
                    }
                    0
                },
            };
            let mut j: usize = 0;
            while j < e.requires.len()
                invariant
                    0 <= j <= e.requires@.len(),
                    vs == dv_strings(vars@),
                    names_unique(vs),
                    forall|n: Seq<char>| #[trigger] vs.contains(n) <==> has_var(map@, n),
                    esv == map@.entities,
                    0 <= i < esv.len(),
                    esv[i as int] == e@,
                    e@.requires.len() == e.requires@.len(),
                    epairs == entity_pairs(esv[i as int]),
                    epairs.len() == e@.requires.len() + e@.excludes.len(),
                    va < vs.len(),
                    vs[va as int] == esv[i as int].name,
                    forall|gi: int| 0 <= gi < groups@.len() ==> group_wf(#[trigger] groups@[gi], vs),
                    pairs_of(groups@) == prevdone + epairs.take(j as int),
                decreases e.requires@.len() - j,
            {
                let rule = &e.requires[j];
                proof {
                    assert(rule@ == e@.requires[j as int]);
                    assert(esv[i as int].all_rules()[j as int] == e@.requires[j as int]);
                    assert forall|t: int| 0 <= t < rule@.targets.len() implies vs.contains(
                        #[trigger] rule@.targets[t],
                    ) by {
                        assert(esv[i as int].all_rules()[j as int].has_target(rule@.targets[t]));
                        assert(entity_mentions(esv[i as int], rule@.targets[t]));
                    }
                }
                let g = build_group(rule, va, vars);
                let ghost prevgroups = groups@;
                groups.push(g);
                proof {
                    assert(groups@[prevgroups.len() as int] == g);
                    assert forall|gi: int| 0 <= gi < groups@.len() implies group_wf(
                        #[trigger] groups@[gi],
                        vs,
                    ) by {
                        if gi < prevgroups.len() {
                            assert(groups@[gi] == prevgroups[gi]);
                        }
                    }
                    assert(vs[va as int] == vars@[va as int]@);
                    assert(g.ename@ == esv[i as int].name);
                    assert(epairs.take(j as int + 1) =~= epairs.take(j as int).push(
                        (esv[i as int].name, esv[i as int].all_rules()[j as int]),
                    ));
                    assert(pairs_of(groups@) =~= pairs_of(prevgroups).push((g.ename@, g.rule@)));
                    assert(pairs_of(prevgroups).push((g.ename@, g.rule@)) =~= prevdone
                        + epairs.take(j as int + 1));
                }
                j = j + 1;
            }
            let mut j: usize = 0;
            while j < e.excludes.len()
                invariant
                    0 <= j <= e.excludes@.len(),
                    vs == dv_strings(vars@),
                    names_unique(vs),
                    forall|n: Seq<char>| #[trigger] vs.contains(n) <==> has_var(map@, n),
                    esv == map@.entities,
                    0 <= i < esv.len(),
                    esv[i as int] == e@,
                    e@.excludes.len() == e.excludes@.len(),
                    reqlen == e@.requires.len(),
                    epairs == entity_pairs(esv[i as int]),
                    epairs.len() == e@.requires.len() + e@.excludes.len(),
                    va < vs.len(),
                    vs[va as int] == esv[i as int].name,
                    forall|gi: int| 0 <= gi < groups@.len() ==> group_wf(#[trigger] groups@[gi], vs),
                    pairs_of(groups@) == prevdone + epairs.take(reqlen + j as int),
                decreases e.excludes@.len() - j,
            {
                let rule = &e.excludes[j];
                proof {
                    assert(rule@ == e@.excludes[j as int]);
                    assert(esv[i as int].all_rules()[reqlen + j as int] == e@.excludes[j as int]);
                    assert forall|t: int| 0 <= t < rule@.targets.len() implies vs.contains(
                        #[trigger] rule@.targets[t],
                    ) by {
                        assert(esv[i as int].all_rules()[reqlen + j as int].has_target(
                            rule@.targets[t],
                        ));
                        assert(entity_mentions(esv[i as int], rule@.targets[t]));
                    }
                }
                let g = build_group(rule, va, vars);
                let ghost prevgroups = groups@;
                groups.push(g);
                proof {
                    assert(groups@[prevgroups.len() as int] == g);
                    assert forall|gi: int| 0 <= gi < groups@.len() implies group_wf(
                        #[trigger] groups@[gi],
                        vs,
                    ) by {
                        if gi < prevgroups.len() {
                            assert(groups@[gi] == prevgroups[gi]);
                        }
                    }
                    assert(vs[va as int] == vars@[va as int]@);
                    assert(g.ename@ == esv[i as int].name);
                    assert(epairs.take(reqlen + j as int + 1) =~= epairs.take(
                        reqlen + j as int,
                    ).push((esv[i as int].name, esv[i as int].all_rules()[reqlen + j as int])));
                    assert(pairs_of(groups@) =~= pairs_of(prevgroups).push((g.ename@, g.rule@)));
                    assert(pairs_of(prevgroups).push((g.ename@, g.rule@)) =~= prevdone
                        + epairs.take(reqlen + j as int + 1));
                }
                j = j + 1;
            }
            proof {
                done = prevdone + epairs;
                assert(epairs.take(epairs.len() as int) =~= epairs);
                assert(pairs_of(groups@) == done);
                assert(spec_pairs(esv.skip(i as int)) == epairs + spec_pairs(
                    esv.skip(i as int + 1),
                ));
                assert(prevdone + (epairs + spec_pairs(esv.skip(i as int + 1))) =~= done
                    + spec_pairs(esv.skip(i as int + 1)));
            }
        } else {
            proof {
                done = prevdone + epairs;
                assert(epairs =~= Seq::<(Seq<char>, RuleView)>::empty());
                assert(pairs_of(groups@) =~= done);
                assert(spec_pairs(esv.skip(i as int)) == epairs + spec_pairs(
                    esv.skip(i as int + 1),
                ));
                assert(prevdone + (epairs + spec_pairs(esv.skip(i as int + 1))) =~= done
                    + spec_pairs(esv.skip(i as int + 1)));
            }
        }
        i = i + 1;
    }
    proof {
        assert(esv.skip(i as int) =~= Seq::<EntityView>::empty());
        assert(done + spec_pairs(esv.skip(i as int)) =~= done);
    }
    groups
}

// ------------------------------------------------------------------
// Probing
// ------------------------------------------------------------------
/// Every clause group marked active is satisfied.
pub open spec fn active_groups_sat(
    asn: Seq<bool>,
    groups: Seq<TrackedGroup>,
    active: Seq<bool>,
) -> bool {
    forall|i: int|
        0 <= i < groups.len() && active[i] ==> formula_sat(
            asn,
            (#[trigger] groups[i]).clauses.deep_view(),
        )
}

/// Every probe assumption holds.
pub open spec fn units_sat(asn: Seq<bool>, units: Seq<Lit>) -> bool {
    forall|k: int| 0 <= k < units.len() ==> lit_sat(asn, #[trigger] units[k])
}

proof fn lemma_formula_sat_concat(asn: Seq<bool>, a: Seq<Seq<Lit>>, b: Seq<Seq<Lit>>)
    ensures
        formula_sat(asn, a + b) <==> (formula_sat(asn, a) && formula_sat(asn, b)),
{
    if formula_sat(asn, a + b) {
        assert forall|i: int| 0 <= i < a.len() implies clause_sat(asn, #[trigger] a[i]) by {
            assert((a + b)[i] == a[i]);
        }
        assert forall|i: int| 0 <= i < b.len() implies clause_sat(asn, #[trigger] b[i]) by {
            assert((a + b)[a.len() + i] == b[i]);
        }
    }
    if formula_sat(asn, a) && formula_sat(asn, b) {
        assert forall|i: int| 0 <= i < (a + b).len() implies clause_sat(
            asn,
            #[trigger] (a + b)[i],
        ) by {
            if i < a.len() {
                assert((a + b)[i] == a[i]);
            } else {
                assert((a + b)[i] == b[i - a.len()]);
            }
        }
    }
}

fn clone_lits(c: &Vec<Lit>) -> (r: Vec<Lit>)
    ensures
        r@ == c@,
{
    let mut out: Vec<Lit> = Vec::new();
    let mut i: usize = 0;
    while i < c.len()
        invariant
            0 <= i <= c@.len(),
            out@ == c@.take(i as int),
        decreases c@.len() - i,
    {
        out.push(c[i]);
        proof {
            assert(out@ =~= c@.take(i as int + 1));
        }
        i = i + 1;
    }
    proof {
        assert(c@.take(i as int) =~= c@);
    }
    out
}

/// Builds the probe formula: the clauses of the active groups plus one
/// singleton clause per assumption literal.
fn assemble(groups: &Vec<TrackedGroup>, active: &Vec<bool>, units: &Vec<Lit>, nvars: usize) -> (f:
    Vec<Vec<Lit>>)
    requires
        active@.len() == groups@.len(),
        forall|gi: int|
            0 <= gi < groups@.len() ==> formula_wf(
                (#[trigger] groups@[gi]).clauses.deep_view(),
                nvars as int,
            ),
        forall|k: int| 0 <= k < units@.len() ==> (#[trigger] units@[k]).0 < nvars,
    ensures
        formula_wf(f.deep_view(), nvars as int),
        forall|asn: Seq<bool>|
            asn.len() == nvars ==> (formula_sat(asn, f.deep_view()) <==> (active_groups_sat(
                asn,
                groups@,
                active@,
            ) && units_sat(asn, units@))),
{
    let mut f: Vec<Vec<Lit>> = Vec::new();
    let mut i: usize = 0;
    proof {
        assert(f.deep_view() =~= Seq::<Seq<Lit>>::empty());
    }
    while i < groups.len()
        invariant
            0 <= i <= groups@.len(),
            active@.len() == groups@.len(),
            forall|gi: int|
                0 <= gi < groups@.len() ==> formula_wf(
                    (#[trigger] groups@[gi]).clauses.deep_view(),
                    nvars as int,
                ),
            formula_wf(f.deep_view(), nvars as int),
            forall|asn: Seq<bool>|
                asn.len() == nvars ==> (formula_sat(asn, f.deep_view()) <==> (forall|gi: int|
                    0 <= gi < i && active@[gi] ==> formula_sat(
                        asn,
                        (#[trigger] groups@[gi]).clauses.deep_view(),
                    ))),
        decreases groups@.len() - i,
    {
        let ghost fpre = f.deep_view();
        if active[i] {
            let cl = &groups[i].clauses;
            let mut j: usize = 0;
            while j < cl.len()
                invariant
                    0 <= j <= cl@.len(),
                    cl.deep_view() == groups@[i as int].clauses.deep_view(),
                    cl.deep_view().len() == cl@.len(),
                    f.deep_view() == fpre + cl.deep_view().take(j as int),
                decreases cl@.len() - j,
            {
                let c = clone_lits(&cl[j]);
                proof {
                    assert(c.deep_view() =~= c@);
                    assert(cl.deep_view()[j as int] == cl@[j as int]@);
                }
                let ghost fmid = f.deep_view();
                f.push(c);
                proof {
                    assert(f.deep_view() =~= fmid.push(cl.deep_view()[j as int]));
                    assert(f.deep_view() =~= fpre + cl.deep_view().take(j as int + 1));
                }
                j = j + 1;
            }
            proof {
                assert(cl.deep_view().take(j as int) =~= cl.deep_view());
                assert forall|asn: Seq<bool>| asn.len() == nvars implies (formula_sat(
                    asn,
                    f.deep_view(),
                ) <==> (forall|gi: int|
                    0 <= gi < i + 1 && active@[gi] ==> formula_sat(
                        asn,
                        (#[trigger] groups@[gi]).clauses.deep_view(),
                    ))) by {
                    lemma_formula_sat_concat(asn, fpre, cl.deep_view());
                    if formula_sat(asn, f.deep_view()) {
                        assert(formula_sat(asn, fpre) && formula_sat(asn, cl.deep_view()));
                        assert forall|gi: int|
                            0 <= gi < i + 1 && active@[gi] implies formula_sat(
                            asn,
                            (#[trigger] groups@[gi]).clauses.deep_view(),
                        ) by {}
                    }
                    if (forall|gi: int|
                        0 <= gi < i + 1 && active@[gi] ==> formula_sat(
                            asn,
                            (#[trigger] groups@[gi]).clauses.deep_view(),
                        )) {
                        assert(formula_sat(asn, groups@[i as int].clauses.deep_view()));
                    }
                }
            }
        } else {
            proof {
                assert forall|asn: Seq<bool>| asn.len() == nvars implies (formula_sat(
                    asn,
                    f.deep_view(),
                ) <==> (forall|gi: int|
                    0 <= gi < i + 1 && active@[gi] ==> formula_sat(
                        asn,
                        (#[trigger] groups@[gi]).clauses.deep_view(),
                    ))) by {}
            }
        }
        i = i + 1;
    }
    let ghost fgroups = f.deep_view();
    let mut k: usize = 0;
    while k < units.len()
        invariant
            0 <= k <= units@.len(),
            active@.len() == groups@.len(),
            forall|kk: int| 0 <= kk < units@.len() ==> (#[trigger] units@[kk]).0 < nvars,
            formula_wf(f.deep_view(), nvars as int),
            f.deep_view().len() == fgroups.len() + k,
            f.deep_view().take(fgroups.len() as int) == fgroups,
            forall|kk: int|
                0 <= kk < k ==> #[trigger] f.deep_view()[fgroups.len() + kk] =~= seq![
                    units@[kk],
                ],
            forall|asn: Seq<bool>|
                asn.len() == nvars ==> (formula_sat(asn, fgroups) <==> (active_groups_sat(
                    asn,
                    groups@,
                    active@,
                ))),
        decreases units@.len() - k,
    {
        let mut c: Vec<Lit> = Vec::new();
        c.push(units[k]);
        proof {
            assert(c.deep_view() =~= seq![units@[k as int]]);
        }
        let ghost fpre = f.deep_view();
        f.push(c);
        proof {
            assert(f.deep_view() =~= fpre.push(seq![units@[k as int]]));
            assert(f.deep_view().take(fgroups.len() as int) =~= fgroups);
        }
        k = k + 1;
    }
    proof {
        assert forall|asn: Seq<bool>| asn.len() == nvars implies (formula_sat(asn, f.deep_view())
            <==> (active_groups_sat(asn, groups@, active@) && units_sat(asn, units@))) by {
            if formula_sat(asn, f.deep_view()) {
                assert forall|q: int| 0 <= q < fgroups.len() implies clause_sat(
                    asn,
                    #[trigger] fgroups[q],
                ) by {
                    assert(f.deep_view()[q] == f.deep_view().take(fgroups.len() as int)[q]);
                    assert(clause_sat(asn, f.deep_view()[q]));
                }
                assert(formula_sat(asn, fgroups));
                assert forall|kk: int| 0 <= kk < units@.len() implies lit_sat(
                    asn,
                    #[trigger] units@[kk],
                ) by {
                    assert(clause_sat(asn, f.deep_view()[fgroups.len() + kk]));
                    let w = choose|w: int|
                        0 <= w < seq![units@[kk]].len() && lit_sat(asn, seq![units@[kk]][w]);
                }
            }
            if active_groups_sat(asn, groups@, active@) && units_sat(asn, units@) {
                assert forall|q: int| 0 <= q < f.deep_view().len() implies clause_sat(
                    asn,
                    #[trigger] f.deep_view()[q],
                ) by {
                    if q < fgroups.len() {
                        assert(f.deep_view()[q] == f.deep_view().take(fgroups.len() as int)[q]);
                        assert(formula_sat(asn, fgroups));
                    } else {
                        let kk = q - fgroups.len();
                        assert(f.deep_view()[fgroups.len() + kk] =~= seq![units@[kk]]);
                        assert(lit_sat(asn, units@[kk]));
                        assert(lit_sat(asn, f.deep_view()[q][0]));
                    }
                }
            }
        }
    }
    f
}

/// Runs the checker on the active groups plus the probe assumptions.
fn probe_check(groups: &Vec<TrackedGroup>, active: &Vec<bool>, units: &Vec<Lit>, nvars: usize) -> (r:
    Option<Vec<bool>>)
    requires
        active@.len() == groups@.len(),
        forall|gi: int|
            0 <= gi < groups@.len() ==> formula_wf(
                (#[trigger] groups@[gi]).clauses.deep_view(),
                nvars as int,
            ),
        forall|k: int| 0 <= k < units@.len() ==> (#[trigger] units@[k]).0 < nvars,
    ensures
        match r {
            Some(asn) => asn@.len() == nvars && active_groups_sat(asn@, groups@, active@)
                && units_sat(asn@, units@),
            None => forall|asn: Seq<bool>|
                asn.len() == nvars ==> !(active_groups_sat(asn, groups@, active@) && units_sat(
                    asn,
                    units@,
                )),
        },
{
    let f = assemble(groups, active, units, nvars);
    check_formula(nvars, &f)
}

/// Shrinks the active set while the probe stays unsatisfiable.
fn minimize(groups: &Vec<TrackedGroup>, units: &Vec<Lit>, nvars: usize) -> (active: Vec<bool>)
    requires
        forall|gi: int|
            0 <= gi < groups@.len() ==> formula_wf(
                (#[trigger] groups@[gi]).clauses.deep_view(),
                nvars as int,
            ),
        forall|k: int| 0 <= k < units@.len() ==> (#[trigger] units@[k]).0 < nvars,
        forall|asn: Seq<bool>|
            asn.len() == nvars ==> !(active_groups_sat(
                asn,
                groups@,
                Seq::new(groups@.len(), |i: int| true),
            ) && units_sat(asn, units@)),
    ensures
        active@.len() == groups@.len(),
        forall|asn: Seq<bool>|
            asn.len() == nvars ==> !(active_groups_sat(asn, groups@, active@) && units_sat(
                asn,
                units@,
            )),
{
    let mut active: Vec<bool> = Vec::new();
    let mut i: usize = 0;
    while i < groups.len()
        invariant
            0 <= i <= groups@.len(),
            active@.len() == i,
            forall|j: int| 0 <= j < i ==> active@[j],
        decreases groups@.len() - i,
    {
        active.push(true);
        i = i + 1;
    }
    proof {
        assert(active@ =~= Seq::new(groups@.len(), |i: int| true));
    }
    let mut g: usize = 0;
    while g < groups.len()
        invariant
            0 <= g <= groups@.len(),
            active@.len() == groups@.len(),
            forall|gi: int|
                0 <= gi < groups@.len() ==> formula_wf(
                    (#[trigger] groups@[gi]).clauses.deep_view(),
                    nvars as int,
                ),
            forall|k: int| 0 <= k < units@.len() ==> (#[trigger] units@[k]).0 < nvars,
            forall|asn: Seq<bool>|
                asn.len() == nvars ==> !(active_groups_sat(asn, groups@, active@) && units_sat(
                    asn,
                    units@,
                )),
        decreases groups@.len() - g,
    {
        let ghost prevactive = active@;
        let was = active.remove(g);
        active.insert(g, false);
        proof {
            assert(active@ =~= prevactive.update(g as int, false));
        }
        if was {
            match probe_check(groups, &active, units, nvars) {
                Some(_) => {
                    // The group is needed; put it back.
                    let _ = active.remove(g);
                    active.insert(g, true);
                    proof {
                        assert(active@ =~= prevactive);
                    }
                },
                None => {},
            }
        } else {
            proof {
                assert(active@ =~= prevactive);
            }
        }
        g = g + 1;
    }
    active
}

/// The conflict key a probed name reports under.
fn orig_key(self_conflicts: &Vec<String>, n: &str) -> (r: String)
    ensures
        is_key_of(dv_strings(self_conflicts@), n@, r@),
{
    let mut i: usize = 0;
    while i < self_conflicts.len()
        invariant
            0 <= i <= self_conflicts@.len(),
            forall|j: int|
                0 <= j < i ==> n@ != sib1(#[trigger] dv_strings(self_conflicts@)[j]) && n@ != sib2(
                    dv_strings(self_conflicts@)[j],
                ),
        decreases self_conflicts@.len() - i,
    {
        proof {
            assert(dv_strings(self_conflicts@)[i as int] == self_conflicts@[i as int]@);
        }
        let s = self_conflicts[i].as_str();
        let s1 = crate::solver::map::sibling_name(s, false);
        let s2 = crate::solver::map::sibling_name(s, true);
        if eq_str(n, s1.as_str()) || eq_str(n, s2.as_str()) {
            proof {
                assert(dv_strings(self_conflicts@).contains(dv_strings(self_conflicts@)[i as int]));
            }
            return self_conflicts[i].clone();
        }
        i = i + 1;
    }
    proof {
        assert forall|s: Seq<char>|
            dv_strings(self_conflicts@).contains(s) implies n@ != sib1(s) && n@ != sib2(s) by {
            let j = choose|j: int|
                0 <= j < dv_strings(self_conflicts@).len() && dv_strings(self_conflicts@)[j] == s;
        }
    }
    n.to_owned()
}

// ------------------------------------------------------------------
// The engine
// ------------------------------------------------------------------
/// A sound conflict entry: its key belongs to a probed name, and every
/// listed rule is a rule of the map.
pub open spec fn entry_sound(m: EntityMapView, k: Seq<char>, rules: Seq<RuleView>) -> bool {
    &&& exists|n: Seq<char>| probed(m, n) && #[trigger] is_key_of(m.self_conflicts, n, k)
    &&& forall|j: int| 0 <= j < rules.len() ==> rule_of_map(m, #[trigger] rules[j])
}

/// A faithful conflict entry: some probed name reporting under this key is
/// unschedulable, and already the listed rules alone forbid selecting it.
pub open spec fn entry_core(m: EntityMapView, k: Seq<char>, rules: Seq<RuleView>) -> bool {
    exists|n: Seq<char>|
        probed(m, n) && !schedulable(m, n) && #[trigger] is_key_of(m.self_conflicts, n, k) && (
        forall|sel: spec_fn(Seq<char>) -> bool|
            #[trigger] listed_rules_hold(sel, m, rules) ==> !sel(n))
}

pub open spec fn entry_ok(m: EntityMapView, k: Seq<char>, rules: Seq<RuleView>) -> bool {
    entry_sound(m, k, rules) && entry_core(m, k, rules)
}

/// A selection constrained by a superset of rules is constrained by the
/// subset.
proof fn lemma_listed_mono(
    sel: spec_fn(Seq<char>) -> bool,
    m: EntityMapView,
    big: Seq<RuleView>,
    small: Seq<RuleView>,
)
    requires
        forall|j: int| 0 <= j < small.len() ==> big.contains(#[trigger] small[j]),
        listed_rules_hold(sel, m, big),
    ensures
        listed_rules_hold(sel, m, small),
{
    assert forall|i: int, j: int|
        0 <= i < m.entities.len() && 0 <= j < (#[trigger] m.entities[i]).all_rules().len()
            && small.contains(#[trigger] m.entities[i].all_rules()[j]) implies rule_holds(
        sel,
        m.entities[i].name,
        m.entities[i].all_rules()[j],
    ) by {
        let w = choose|w: int| 0 <= w < small.len() && small[w] == m.entities[i].all_rules()[j];
        assert(big.contains(small[w]));
    }
}

proof fn lemma_entry_ok_canon(m: EntityMapView, k: Seq<char>, l: Seq<RuleView>)
    requires
        entry_ok(m, k, l),
    ensures
        entry_ok(m, k, crate::model::rule::canon_rules(l)),
{
    let cl = crate::model::rule::canon_rules(l);
    assert forall|x: RuleView| #[trigger] cl.contains(x) implies l.contains(x) by {
        crate::model::rule::lemma_canon_rules_membership(l, x);
    }
    assert forall|j: int| 0 <= j < cl.len() implies rule_of_map(m, #[trigger] cl[j]) by {
        assert(cl.contains(cl[j]));
        assert(l.contains(cl[j]));
        let w = choose|w: int| 0 <= w < l.len() && l[w] == cl[j];
        assert(rule_of_map(m, l[w]));
    }
    assert forall|j: int| 0 <= j < l.len() implies cl.contains(#[trigger] l[j]) by {
        crate::model::rule::lemma_canon_rules_membership(l, l[j]);
        assert(l.contains(l[j]));
    }
    let n = choose|n: Seq<char>|
        probed(m, n) && !schedulable(m, n) && #[trigger] is_key_of(m.self_conflicts, n, k) && (
        forall|sel: spec_fn(Seq<char>) -> bool|
            #[trigger] listed_rules_hold(sel, m, l) ==> !sel(n));
    assert forall|sel: spec_fn(Seq<char>) -> bool| #[trigger]
        listed_rules_hold(sel, m, cl) implies !sel(n) by {
        lemma_listed_mono(sel, m, cl, l);
    }
}

proof fn lemma_entry_ok_union(m: EntityMapView, k: Seq<char>, l1: Seq<RuleView>, l2: Seq<RuleView>)
    requires
        entry_ok(m, k, l1),
        entry_ok(m, k, l2),
    ensures
        entry_ok(m, k, crate::model::rule::canon_rules(l1 + l2)),
{
    let cl = crate::model::rule::canon_rules(l1 + l2);
    assert forall|x: RuleView| #[trigger] cl.contains(x) implies (l1.contains(x) || l2.contains(
        x,
    )) by {
        crate::model::rule::lemma_canon_rules_membership(l1 + l2, x);
        crate::model::rule::lemma_rules_concat_membership(l1, l2, x);
    }
    assert forall|j: int| 0 <= j < cl.len() implies rule_of_map(m, #[trigger] cl[j]) by {
        assert(cl.contains(cl[j]));
        if l1.contains(cl[j]) {
            let w = choose|w: int| 0 <= w < l1.len() && l1[w] == cl[j];
            assert(rule_of_map(m, l1[w]));
        } else {
            let w = choose|w: int| 0 <= w < l2.len() && l2[w] == cl[j];
            assert(rule_of_map(m, l2[w]));
        }
    }
    assert forall|j: int| 0 <= j < l1.len() implies cl.contains(#[trigger] l1[j]) by {
        crate::model::rule::lemma_canon_rules_membership(l1 + l2, l1[j]);
        crate::model::rule::lemma_rules_concat_membership(l1, l2, l1[j]);
        assert(l1.contains(l1[j]));
    }
    let n = choose|n: Seq<char>|
        probed(m, n) && !schedulable(m, n) && #[trigger] is_key_of(m.self_conflicts, n, k) && (
        forall|sel: spec_fn(Seq<char>) -> bool|
            #[trigger] listed_rules_hold(sel, m, l1) ==> !sel(n));
    assert forall|sel: spec_fn(Seq<char>) -> bool| #[trigger]
        listed_rules_hold(sel, m, cl) implies !sel(n) by {
        lemma_listed_mono(sel, m, cl, l1);
    }
}

proof fn lemma_entry_sound_canon(m: EntityMapView, k: Seq<char>, l: Seq<RuleView>)
    requires
        entry_sound(m, k, l),
    ensures
        entry_sound(m, k, crate::model::rule::canon_rules(l)),
{
    let cl = crate::model::rule::canon_rules(l);
    assert forall|j: int| 0 <= j < cl.len() implies rule_of_map(m, #[trigger] cl[j]) by {
        crate::model::rule::lemma_canon_rules_membership(l, cl[j]);
        assert(cl.contains(cl[j]));
        let w = choose|w: int| 0 <= w < l.len() && l[w] == cl[j];
    }
}

proof fn lemma_entry_sound_union(
    m: EntityMapView,
    k: Seq<char>,
    l1: Seq<RuleView>,
    l2: Seq<RuleView>,
)
    requires
        entry_sound(m, k, l1),
        entry_sound(m, k, l2),
    ensures
        entry_sound(m, k, crate::model::rule::canon_rules(l1 + l2)),
{
    let cl = crate::model::rule::canon_rules(l1 + l2);
    assert forall|j: int| 0 <= j < cl.len() implies rule_of_map(m, #[trigger] cl[j]) by {
        crate::model::rule::lemma_canon_rules_membership(l1 + l2, cl[j]);
        assert(cl.contains(cl[j]));
        crate::model::rule::lemma_rules_concat_membership(l1, l2, cl[j]);
        if l1.contains(cl[j]) {
            let w = choose|w: int| 0 <= w < l1.len() && l1[w] == cl[j];
        } else {
            let w = choose|w: int| 0 <= w < l2.len() && l2[w] == cl[j];
        }
    }
}

/// The boolean-constraint engine. Without environments a probe asserts only
/// the probed name; with environments each probe is specialized per
/// environment.
pub struct SmtSolver {
    pub envs: Option<Vec<Env>>,
}

/// What the engine's conflict verdict guarantees without environments.
pub open spec fn plain_faithful(m: EntityMapView, r: crate::solver::solver::SolverOutputView) -> bool {
    &&& ((r is Sat) <==> (forall|n: Seq<char>| probed(m, n) ==> #[trigger] schedulable(m, n)))
    &&& match r {
        crate::solver::solver::SolverOutputView::Sat => true,
        crate::solver::solver::SolverOutputView::Conflict(cm) => cm.len() > 0 && forall|ki: int|
            0 <= ki < cm.len() ==> entry_ok(m, (#[trigger] cm[ki]).0, cm[ki].1),
    }
}

/// The first `upto` labels reach `x`: one names it, or one was split and
/// `x` is one of its siblings.
pub open spec fn label_covers_upto(
    sc: Seq<Seq<char>>,
    ls: Seq<Seq<char>>,
    upto: int,
    x: Seq<char>,
) -> bool {
    exists|li: int|
        0 <= li < upto && li < ls.len() && ((#[trigger] ls[li]) == x || (sc.contains(ls[li]) && (x
            == sib1(ls[li]) || x == sib2(ls[li]))))
}

/// The environment's labels reach `x`: either a label names it, or a label
/// was split and `x` is one of its siblings.
pub open spec fn label_covers(sc: Seq<Seq<char>>, ls: Seq<Seq<char>>, x: Seq<char>) -> bool {
    label_covers_upto(sc, ls, ls.len() as int, x)
}

/// The first `upto` labels assert `x`: a plain label with a variable, or
/// both siblings of a split label when both carry variables.
pub open spec fn env_pins_upto(
    m: EntityMapView,
    ls: Seq<Seq<char>>,
    upto: int,
    x: Seq<char>,
) -> bool {
    exists|li: int|
        0 <= li < upto && li < ls.len() && ((!m.self_conflicts.contains(#[trigger] ls[li]) && ls[li]
            == x && has_var(m, x)) || (m.self_conflicts.contains(ls[li]) && (x == sib1(ls[li]) || x
            == sib2(ls[li])) && has_var(m, sib1(ls[li])) && has_var(m, sib2(ls[li]))))
}

/// The probe under this environment asserts `x`: a plain label with a
/// variable, or both siblings of a split label when both carry variables.
pub open spec fn env_pins(m: EntityMapView, ls: Seq<Seq<char>>, x: Seq<char>) -> bool {
    env_pins_upto(m, ls, ls.len() as int, x)
}

/// A pinned name is reached by a label.
proof fn lemma_pins_covers(m: EntityMapView, ls: Seq<Seq<char>>, x: Seq<char>)
    requires
        env_pins(m, ls, x),
    ensures
        label_covers(m.self_conflicts, ls, x),
{
    let li = choose|li: int|
        0 <= li < ls.len() && li < ls.len() && ((!m.self_conflicts.contains(#[trigger] ls[li])
            && ls[li] == x && has_var(m, x)) || (m.self_conflicts.contains(ls[li]) && (x == sib1(
            ls[li],
        ) || x == sib2(ls[li])) && has_var(m, sib1(ls[li])) && has_var(m, sib2(ls[li]))));
    assert(ls[li] == x || (m.self_conflicts.contains(ls[li]) && (x == sib1(ls[li]) || x == sib2(
        ls[li],
    ))));
}

/// The probe under this environment denies `x`: a universe name with a
/// variable that is neither the probed name nor reached by a label.
pub open spec fn env_shut(m: EntityMapView, ls: Seq<Seq<char>>, n: Seq<char>, x: Seq<char>) -> bool {
    m.names.contains(x) && has_var(m, x) && x != n && !label_covers(m.self_conflicts, ls, x)
}

/// The name can be scheduled under the environment: some selection satisfies
/// every rule, selects the name and every pinned name, and drops every
/// denied name.
pub open spec fn env_probe_ok(m: EntityMapView, ls: Seq<Seq<char>>, n: Seq<char>) -> bool {
    exists|sel: spec_fn(Seq<char>) -> bool|
        map_rules_hold(sel, m) && sel(n) && (forall|x: Seq<char>|
            env_pins(m, ls, x) ==> #[trigger] sel(x)) && (forall|x: Seq<char>|
            env_shut(m, ls, n, x) ==> !(#[trigger] sel(x)))
}

/// Some installed environment clears the name's probe.
pub open spec fn env_cleared(m: EntityMapView, es: Seq<crate::model::env::Env>, n: Seq<char>) -> bool {
    exists|e: int| 0 <= e < es.len() && env_probe_ok(m, (#[trigger] es[e])@.labels, n)
}

/// What the engine's verdict guarantees under environments: satisfiable
/// exactly when no environments are installed or every probed name clears
/// under some environment, and a conflict names only probed keys with rules
/// drawn from the map.
pub open spec fn env_sound(
    m: EntityMapView,
    es: Seq<crate::model::env::Env>,
    r: crate::solver::solver::SolverOutputView,
) -> bool {
    &&& es.len() == 0 ==> r is Sat
    &&& ((r is Sat) <==> (es.len() == 0 || forall|n: Seq<char>|
        probed(m, n) ==> #[trigger] env_cleared(m, es, n)))
    &&& match r {
        crate::solver::solver::SolverOutputView::Sat => true,
        crate::solver::solver::SolverOutputView::Conflict(cm) => cm.len() > 0 && forall|ki: int|
            0 <= ki < cm.len() ==> entry_sound(m, (#[trigger] cm[ki]).0, cm[ki].1),
    }
}

impl SmtSolver {
    pub fn new() -> (r: Self)
        ensures
            r.envs is None,
    {
        SmtSolver { envs: None }
    }

    /// Installs exactly the given environments; later probes are
    /// specialized to them.
    pub fn set_envs(&mut self, envs: Vec<Env>)
        ensures
            final(self).envs == Some(envs),
    {
        self.envs = Some(envs);
    }

    /// Solves the map: probes every universe name that carries a boolean
    /// variable, and reports the unschedulable ones with a minimized rule
    /// set, keyed by their user-visible name.
    pub fn solve(&self, map: &EntityMap) -> (r: SolverOutput)
        ensures
            self.envs is None ==> plain_faithful(map@, r@),
            self.envs is Some ==> env_sound(map@, self.envs->Some_0@, r@),
    {
        match &self.envs {
            None => solve_plain(map),
            Some(envs) => solve_with_envs(map, envs),
        }
    }
}

/// Collects the rules of the active groups, with the facts the conflict
/// entry needs.
fn core_rules(groups: &Vec<TrackedGroup>, active: &Vec<bool>, map: &EntityMap) -> (core: Vec<
    EntityRule,
>)
    requires
        active@.len() == groups@.len(),
        pairs_of(groups@) == spec_pairs(map@.entities),
    ensures
        forall|j: int| 0 <= j < dv_rules(core@).len() ==> rule_of_map(map@, #[trigger] dv_rules(core@)[j]),
        forall|gi: int|
            0 <= gi < groups@.len() && active@[gi] ==> dv_rules(core@).contains(
                (#[trigger] groups@[gi]).rule@,
            ),
{
    let ghost m = map@;
    let mut core: Vec<EntityRule> = Vec::new();
    let mut g: usize = 0;
    while g < groups.len()
        invariant
            0 <= g <= groups@.len(),
            active@.len() == groups@.len(),
            pairs_of(groups@) == spec_pairs(m.entities),
            m == map@,
            forall|j: int|
                0 <= j < dv_rules(core@).len() ==> rule_of_map(m, #[trigger] dv_rules(core@)[j]),
            forall|gi: int|
                0 <= gi < g && active@[gi] ==> dv_rules(core@).contains(
                    (#[trigger] groups@[gi]).rule@,
                ),
        decreases groups@.len() - g,
    {
        if active[g] {
            let rule = groups[g].rule.clone();
            let ghost prevcore = dv_rules(core@);
            core.push(rule);
            proof {
                assert(dv_rules(core@) =~= prevcore.push(groups@[g as int].rule@));
                assert(rule_of_map(m, groups@[g as int].rule@)) by {
                    assert(pairs_of(groups@)[g as int] == (
                        groups@[g as int].ename@,
                        groups@[g as int].rule@,
                    ));
                    lemma_spec_pairs_origin(m.entities, g as int);
                    let (ei, ej) = choose|ei: int, ej: int|
                        #![trigger m.entities[ei].all_rules()[ej]]
                        0 <= ei < m.entities.len() && 0 <= ej < m.entities[ei].all_rules().len()
                            && spec_pairs(m.entities)[g as int] == (
                        m.entities[ei].name,
                        m.entities[ei].all_rules()[ej],
                        );
                    assert(m.entities[ei].all_rules().contains(groups@[g as int].rule@)) by {
                        assert(m.entities[ei].all_rules()[ej] == groups@[g as int].rule@);
                    }
                    assert(!m.entities[ei].is_dummy());
                }
                assert forall|j: int| 0 <= j < dv_rules(core@).len() implies rule_of_map(
                    m,
                    #[trigger] dv_rules(core@)[j],
                ) by {
                    if j < prevcore.len() {
                        assert(dv_rules(core@)[j] == prevcore[j]);
                    }
                }
                assert forall|gi: int| 0 <= gi < g + 1 && active@[gi] implies dv_rules(
                    core@,
                ).contains((#[trigger] groups@[gi]).rule@) by {
                    if gi < g {
                        let w = choose|w: int|
                            0 <= w < prevcore.len() && prevcore[w] == groups@[gi].rule@;
                        assert(dv_rules(core@)[w] == groups@[gi].rule@);
                    } else {
                        assert(dv_rules(core@)[prevcore.len() as int] == groups@[gi].rule@);
                    }
                }
            }
        }
        g = g + 1;
    }
    core
}

/// The unsatisfiability of the active groups plus the probe, translated to
/// selections: no selection obeying the listed rules selects the probed
/// name.
proof fn lemma_core_semantics(
    m: EntityMapView,
    vs: Seq<Seq<char>>,
    groups: Seq<TrackedGroup>,
    active: Seq<bool>,
    core: Seq<RuleView>,
    vn: usize,
    units: Seq<Lit>,
)
    requires
        names_unique(vs),
        (vn as int) < vs.len(),
        pairs_of(groups) == spec_pairs(m.entities),
        active.len() == groups.len(),
        forall|gi: int| 0 <= gi < groups.len() ==> group_wf(#[trigger] groups[gi], vs),
        forall|gi: int|
            0 <= gi < groups.len() && active[gi] ==> core.contains((#[trigger] groups[gi]).rule@),
        units == seq![(vn, true)],
        forall|asn: Seq<bool>|
            asn.len() == vs.len() ==> !(active_groups_sat(asn, groups, active) && units_sat(
                asn,
                units,
            )),
    ensures
        forall|sel: spec_fn(Seq<char>) -> bool|
            #[trigger] listed_rules_hold(sel, m, core) ==> !sel(vs[vn as int]),
{
    assert forall|sel: spec_fn(Seq<char>) -> bool| #[trigger]
        listed_rules_hold(sel, m, core) implies !sel(vs[vn as int]) by {
        if sel(vs[vn as int]) {
            let asn = Seq::new(vs.len(), |x: int| sel(vs[x]));
            assert forall|gi: int| 0 <= gi < groups.len() && active[gi] implies formula_sat(
                asn,
                (#[trigger] groups[gi]).clauses.deep_view(),
            ) by {
                assert(group_wf(groups[gi], vs));
                assert(pairs_of(groups)[gi] == (groups[gi].ename@, groups[gi].rule@));
                lemma_spec_pairs_origin(m.entities, gi);
                let (ei, ej) = choose|ei: int, ej: int|
                    #![trigger m.entities[ei].all_rules()[ej]]
                    0 <= ei < m.entities.len() && 0 <= ej < m.entities[ei].all_rules().len()
                        && spec_pairs(m.entities)[gi] == (
                    m.entities[ei].name,
                    m.entities[ei].all_rules()[ej],
                    );
                assert(groups[gi].ename@ == m.entities[ei].name);
                assert(groups[gi].rule@ == m.entities[ei].all_rules()[ej]);
                assert(rule_holds(sel, m.entities[ei].name, groups[gi].rule@)) by {
                    assert(core.contains(m.entities[ei].all_rules()[ej]));
                }
                assert(rule_holds(sel_of(vs, asn), groups[gi].ename@, groups[gi].rule@)) by {
                    assert(vs.contains(groups[gi].ename@));
                    lemma_sel_roundtrip(vs, sel, groups[gi].ename@);
                    assert forall|t: int|
                        0 <= t < groups[gi].rule@.targets.len() implies sel_of(vs, asn)(
                        #[trigger] groups[gi].rule@.targets[t],
                    ) == sel(groups[gi].rule@.targets[t]) by {
                        assert(vs.contains(groups[gi].rule@.targets[t]));
                        lemma_sel_roundtrip(vs, sel, groups[gi].rule@.targets[t]);
                    }
                    lemma_rule_holds_congr(
                        sel,
                        sel_of(vs, asn),
                        groups[gi].ename@,
                        groups[gi].rule@,
                    );
                }
                assert(asn.len() == vs.len());
                assert(formula_sat(asn, groups[gi].clauses.deep_view()) <==> rule_holds(
                    sel_of(vs, asn),
                    groups[gi].ename@,
                    groups[gi].rule@,
                ));
            }
            assert(units_sat(asn, units)) by {
                assert forall|k: int| 0 <= k < units.len() implies lit_sat(
                    asn,
                    #[trigger] units[k],
                ) by {
                    assert(units[k] == (vn, true));
                    assert(asn[vn as int] == sel(vs[vn as int]));
                }
            }
            assert(active_groups_sat(asn, groups, active));
            assert(asn.len() == vs.len());
            assert(false);
        }
    }
}

/// The variable table with the entry at `i` moved to the front by a swap.
fn swap_front(vars: &Vec<String>, i: usize) -> (out: Vec<String>)
    requires
        i < vars@.len(),
        names_unique(dv_strings(vars@)),
    ensures
        out@.len() == vars@.len(),
        names_unique(dv_strings(out@)),
        dv_strings(out@)[0] == dv_strings(vars@)[i as int],
        forall|n: Seq<char>| #[trigger]
            dv_strings(out@).contains(n) <==> dv_strings(vars@).contains(n),
{
    let ghost vs = dv_strings(vars@);
    let n = vars.len();
    let mut out: Vec<String> = Vec::new();
    let mut j: usize = 0;
    let ghost target = Seq::new(
        vs.len(),
        |k: int|
            if k == 0 {
                vs[i as int]
            } else if k == i {
                vs[0]
            } else {
                vs[k]
            },
    );
    while j < n
        invariant
            0 <= j <= n,
            n == vars@.len(),
            i < n,
            vs == dv_strings(vars@),
            vs.len() == n,
            target.len() == n,
            target == Seq::new(
                vs.len(),
                |k: int|
                    if k == 0 {
                        vs[i as int]
                    } else if k == i {
                        vs[0]
                    } else {
                        vs[k]
                    },
            ),
            dv_strings(out@) == target.take(j as int),
            out@.len() == j,
        decreases n - j,
    {
        let pick = if j == 0 {
            i
        } else if j == i {
            0
        } else {
            j
        };
        out.push(vars[pick].clone());
        proof {
            assert(dv_strings(out@) =~= target.take(j as int + 1));
        }
        j = j + 1;
    }
    proof {
        assert(target.take(n as int) =~= target);
        assert(names_unique(dv_strings(out@))) by {
            assert forall|a: int, b: int|
                0 <= a < b < target.len() implies target[a] != target[b] by {}
        }
        assert forall|nm: Seq<char>| #[trigger]
            dv_strings(out@).contains(nm) <==> vs.contains(nm) by {
            if dv_strings(out@).contains(nm) {
                let w = choose|w: int| 0 <= w < target.len() && target[w] == nm;
                if w == 0 {
                    assert(vs[i as int] == nm);
                } else if w == i {
                    assert(vs[0] == nm);
                } else {
                    assert(vs[w] == nm);
                }
            }
            if vs.contains(nm) {
                let w = choose|w: int| 0 <= w < vs.len() && vs[w] == nm;
                if w == 0 {
                    assert(target[i as int] == nm);
                } else if w == i {
                    assert(target[0] == nm);
                } else {
                    assert(target[w] == nm);
                }
            }
        }
    }
    out
}

/// The probe sweep without environments.
#[verifier::rlimit(80)]
fn solve_plain(map: &EntityMap) -> (r: SolverOutput)
    ensures
        plain_faithful(map@, r@),
{
    let ghost m = map@;
    let base_vars = collect_vars(map);
    let mut raw: Vec<ConflictEntry> = Vec::new();
    let mut i: usize = 0;
    while i < map.names.len()
        invariant
            0 <= i <= map.names@.len(),
            m == map@,
            names_unique(dv_strings(base_vars@)),
            forall|n: Seq<char>| #[trigger]
                dv_strings(base_vars@).contains(n) <==> has_var(m, n),
            m.names.len() == map.names@.len(),
            forall|ki: int|
                0 <= ki < dv_conflicts(raw@).len() ==> entry_ok(
                    m,
                    (#[trigger] dv_conflicts(raw@)[ki]).0,
                    dv_conflicts(raw@)[ki].1,
                ),
            raw@.len() == 0 ==> forall|j: int|
                0 <= j < i && has_var(m, #[trigger] m.names[j]) ==> schedulable(m, m.names[j]),
        decreases map.names@.len() - i,
    {
        proof {
            assert(m.names[i as int] == map.names@[i as int]@);
        }
        let n = map.names[i].as_str();
        match find_var(&base_vars, n) {
            None => {
                proof {
                    assert(!dv_strings(base_vars@).contains(n@));
                    assert(!has_var(m, m.names[i as int]));
                }
            },
            Some(base_vn) => {
                // Put the probed name's variable first: the search then
                // decides it before anything else.
                let vars = swap_front(&base_vars, base_vn);
                let ghost vs = dv_strings(vars@);
                let groups = encode(map, &vars);
                let nvars = vars.len();
                let mut all_active: Vec<bool> = Vec::new();
                let mut t: usize = 0;
                while t < groups.len()
                    invariant
                        0 <= t <= groups@.len(),
                        all_active@.len() == t,
                        forall|j: int| 0 <= j < t ==> all_active@[j],
                    decreases groups@.len() - t,
                {
                    all_active.push(true);
                    t = t + 1;
                }
                let vn: usize = 0;
                proof {
                    assert(vs[vn as int] == n@) by {
                        assert(dv_strings(base_vars@)[base_vn as int] == base_vars@[
                            base_vn as int
                        ]@);
                    }
                    assert(vs.contains(n@)) by {
                        assert(vs[vn as int] == n@);
                    }
                    assert(has_var(m, m.names[i as int]));
                    assert(probed(m, m.names[i as int])) by {
                        assert(m.names.contains(m.names[i as int]));
                    }
                }
                let mut units: Vec<Lit> = Vec::new();
                units.push((vn, true));
                proof {
                    assert(units@ =~= seq![(vn, true)]);
                }
                match probe_check(&groups, &all_active, &units, nvars) {
                    Some(asn) => {
                        proof {
                            let sel = sel_of(vs, asn@);
                            assert forall|ei: int|
                                0 <= ei < m.entities.len() implies entity_rules_hold(
                                sel,
                                #[trigger] m.entities[ei],
                            ) by {
                                assert forall|ej: int|
                                    0 <= ej < m.entities[ei].all_rules().len() implies rule_holds(
                                    sel,
                                    m.entities[ei].name,
                                    #[trigger] m.entities[ei].all_rules()[ej],
                                ) by {
                                    lemma_spec_pairs_complete(m.entities, ei, ej);
                                    let k = choose|k: int|
                                        0 <= k < spec_pairs(m.entities).len()
                                            && #[trigger] spec_pairs(m.entities)[k] == (
                                        m.entities[ei].name,
                                        m.entities[ei].all_rules()[ej],
                                        );
                                    assert(pairs_of(groups@)[k] == (
                                        groups@[k].ename@,
                                        groups@[k].rule@,
                                    ));
                                    assert(formula_sat(asn@, groups@[k].clauses.deep_view()));
                                    assert(group_wf(groups@[k], vs));
                                    assert(formula_sat(asn@, groups@[k].clauses.deep_view())
                                        <==> rule_holds(
                                        sel_of(vs, asn@),
                                        groups@[k].ename@,
                                        groups@[k].rule@,
                                    ));
                                    assert(rule_holds(sel, groups@[k].ename@, groups@[k].rule@));
                                }
                            }
                            assert(map_rules_hold(sel, m));
                            lemma_sel_at(vs, asn@, vn as int);
                            assert(units@[0] == (vn, true));
                            assert(lit_sat(asn@, units@[0]));
                            assert(asn@[vn as int]);
                            assert(sel(m.names[i as int]));
                            assert(schedulable(m, m.names[i as int]));
                        }
                    },
                    None => {
                        proof {
                            assert(all_active@ =~= Seq::new(groups@.len(), |x: int| true));
                        }
                        let active = minimize(&groups, &units, nvars);
                        let core = core_rules(&groups, &active, map);
                        let key = orig_key(&map.self_conflicts, n);
                        proof {
                            lemma_core_semantics(
                                m,
                                vs,
                                groups@,
                                active@,
                                dv_rules(core@),
                                vn,
                                units@,
                            );
                            assert(!schedulable(m, m.names[i as int])) by {
                                if schedulable(m, m.names[i as int]) {
                                    let sel = choose|sel: spec_fn(Seq<char>) -> bool|
                                        map_rules_hold(sel, m) && sel(m.names[i as int]);
                                    assert(listed_rules_hold(sel, m, dv_rules(core@)));
                                    assert(!sel(vs[vn as int]));
                                }
                            }
                            assert(entry_ok(m, key@, dv_rules(core@))) by {
                                assert(is_key_of(m.self_conflicts, m.names[i as int], key@));
                                assert(entry_core(m, key@, dv_rules(core@)));
                            }
                        }
                        let ghost prevraw = dv_conflicts(raw@);
                        raw.push((key, core));
                        proof {
                            assert(dv_conflicts(raw@) =~= prevraw.push(
                                (raw@[raw@.len() - 1].0@, dv_rules(raw@[raw@.len() - 1].1@)),
                            ));
                            assert forall|ki: int|
                                0 <= ki < dv_conflicts(raw@).len() implies entry_ok(
                                m,
                                (#[trigger] dv_conflicts(raw@)[ki]).0,
                                dv_conflicts(raw@)[ki].1,
                            ) by {
                                if ki < prevraw.len() {
                                    assert(dv_conflicts(raw@)[ki] == prevraw[ki]);
                                }
                            }
                        }
                    },
                }
            },
        }
        i = i + 1;
    }
    if raw.len() == 0 {
        proof {
            assert forall|n: Seq<char>| probed(m, n) implies #[trigger] schedulable(m, n) by {
                let j = choose|j: int| 0 <= j < m.names.len() && m.names[j] == n;
            }
        }
        SolverOutput::new_ok()
    } else {
        let r = SolverOutput::new_conflict(raw);
        proof {
            let rawv = dv_conflicts(raw@);
            let p = |k: Seq<char>, l: Seq<RuleView>| entry_ok(m, k, l);
            assert forall|kk: Seq<char>, l: Seq<RuleView>| p(kk, l) implies #[trigger] p(
                kk,
                crate::model::rule::canon_rules(l),
            ) by {
                lemma_entry_ok_canon(m, kk, l);
            }
            assert forall|kk: Seq<char>, l1: Seq<RuleView>, l2: Seq<RuleView>|
                p(kk, l1) && p(kk, l2) implies #[trigger] p(
                kk,
                crate::model::rule::canon_rules(l1 + l2),
            ) by {
                lemma_entry_ok_union(m, kk, l1, l2);
            }
            crate::solver::solver::lemma_canon_conflicts_entries(p, rawv);
            crate::solver::solver::lemma_canon_conflicts_nonempty(rawv);
            let cm = crate::solver::solver::canon_conflicts(rawv);
            assert(entry_ok(m, cm[0].0, cm[0].1));
            assert(entry_core(m, cm[0].0, cm[0].1));
            let n0 = choose|n: Seq<char>|
                probed(m, n) && !schedulable(m, n) && #[trigger] is_key_of(
                    m.self_conflicts,
                    n,
                    cm[0].0,
                ) && (forall|sel: spec_fn(Seq<char>) -> bool|
                    #[trigger] listed_rules_hold(sel, m, cm[0].1) ==> !sel(n));
            assert(!(r@ is Sat));
        }
        r
    }
}

/// The probe sweep specialized per environment: a name is cleared when any
/// environment admits it; otherwise the offending rules of every environment
/// are reported together.
/// A satisfying assignment of the probe yields a clearing selection.
proof fn lemma_env_probe_sat(
    m: EntityMapView,
    vs: Seq<Seq<char>>,
    ls: Seq<Seq<char>>,
    vn: usize,
    units: Seq<Lit>,
    groups: Seq<TrackedGroup>,
    asn: Seq<bool>,
)
    requires
        names_unique(vs),
        forall|x: Seq<char>| #[trigger] vs.contains(x) <==> has_var(m, x),
        (vn as int) < vs.len(),
        pairs_of(groups) == spec_pairs(m.entities),
        forall|gi: int| 0 <= gi < groups.len() ==> group_wf(#[trigger] groups[gi], vs),
        units.len() > 0 && units[0] == (vn, true),
        forall|k: int| 0 <= k < units.len() ==> (#[trigger] units[k]).0 < vs.len(),
        forall|x: Seq<char>|
            #[trigger] env_pins(m, ls, x) ==> exists|k: int|
                0 <= k < units.len() && (#[trigger] units[k]).1 && vs[units[k].0 as int] == x,
        forall|x: Seq<char>|
            #[trigger] env_shut(m, ls, vs[vn as int], x) ==> exists|k: int|
                0 <= k < units.len() && !(#[trigger] units[k]).1 && vs[units[k].0 as int] == x,
        asn.len() == vs.len(),
        forall|gi: int|
            0 <= gi < groups.len() ==> formula_sat(asn, (#[trigger] groups[gi]).clauses.deep_view()),
        units_sat(asn, units),
    ensures
        env_probe_ok(m, ls, vs[vn as int]),
{
    let sel = sel_of(vs, asn);
    assert forall|ei: int| 0 <= ei < m.entities.len() implies entity_rules_hold(
        sel,
        #[trigger] m.entities[ei],
    ) by {
        assert forall|ej: int| 0 <= ej < m.entities[ei].all_rules().len() implies rule_holds(
            sel,
            m.entities[ei].name,
            #[trigger] m.entities[ei].all_rules()[ej],
        ) by {
            lemma_spec_pairs_complete(m.entities, ei, ej);
            let k = choose|k: int|
                0 <= k < spec_pairs(m.entities).len() && #[trigger] spec_pairs(m.entities)[k] == (
                m.entities[ei].name,
                m.entities[ei].all_rules()[ej],
                );
            assert(pairs_of(groups)[k] == (groups[k].ename@, groups[k].rule@));
            assert(formula_sat(asn, groups[k].clauses.deep_view()));
            assert(group_wf(groups[k], vs));
            assert(formula_sat(asn, groups[k].clauses.deep_view()) <==> rule_holds(
                sel_of(vs, asn),
                groups[k].ename@,
                groups[k].rule@,
            ));
            assert(rule_holds(sel, groups[k].ename@, groups[k].rule@));
        }
    }
    assert(map_rules_hold(sel, m));
    lemma_sel_at(vs, asn, vn as int);
    assert(lit_sat(asn, units[0]));
    assert(asn[vn as int]);
    assert(sel(vs[vn as int]));
    assert forall|x: Seq<char>| env_pins(m, ls, x) implies #[trigger] sel(x) by {
        let k = choose|k: int|
            0 <= k < units.len() && (#[trigger] units[k]).1 && vs[units[k].0 as int] == x;
        assert(lit_sat(asn, units[k]));
        assert(asn[units[k].0 as int]);
        lemma_sel_at(vs, asn, units[k].0 as int);
    }
    assert forall|x: Seq<char>| env_shut(m, ls, vs[vn as int], x) implies !(#[trigger] sel(x)) by {
        let k = choose|k: int|
            0 <= k < units.len() && !(#[trigger] units[k]).1 && vs[units[k].0 as int] == x;
        assert(lit_sat(asn, units[k]));
        assert(!asn[units[k].0 as int]);
        lemma_sel_at(vs, asn, units[k].0 as int);
    }
}

/// An unsatisfiable probe rules out every clearing selection.
proof fn lemma_env_probe_unsat(
    m: EntityMapView,
    vs: Seq<Seq<char>>,
    ls: Seq<Seq<char>>,
    vn: usize,
    units: Seq<Lit>,
    groups: Seq<TrackedGroup>,
    active: Seq<bool>,
)
    requires
        names_unique(vs),
        forall|x: Seq<char>| #[trigger] vs.contains(x) <==> has_var(m, x),
        (vn as int) < vs.len(),
        pairs_of(groups) == spec_pairs(m.entities),
        forall|gi: int| 0 <= gi < groups.len() ==> group_wf(#[trigger] groups[gi], vs),
        active.len() == groups.len(),
        units.len() > 0 && units[0] == (vn, true),
        forall|k: int| 0 <= k < units.len() ==> (#[trigger] units[k]).0 < vs.len(),
        forall|k: int|
            0 < k < units.len() && (#[trigger] units[k]).1 ==> env_pins(
                m,
                ls,
                vs[units[k].0 as int],
            ),
        forall|k: int|
            0 <= k < units.len() && !(#[trigger] units[k]).1 ==> env_shut(
                m,
                ls,
                vs[vn as int],
                vs[units[k].0 as int],
            ),
        forall|asn: Seq<bool>|
            asn.len() == vs.len() ==> !(active_groups_sat(asn, groups, active) && units_sat(
                asn,
                units,
            )),
    ensures
        !env_probe_ok(m, ls, vs[vn as int]),
{
    if env_probe_ok(m, ls, vs[vn as int]) {
        let sel = choose|sel: spec_fn(Seq<char>) -> bool|
            map_rules_hold(sel, m) && sel(vs[vn as int]) && (forall|x: Seq<char>|
                env_pins(m, ls, x) ==> #[trigger] sel(x)) && (forall|x: Seq<char>|
                env_shut(m, ls, vs[vn as int], x) ==> !(#[trigger] sel(x)));
        let asn = Seq::new(vs.len(), |x: int| sel(vs[x]));
        assert forall|gi: int| 0 <= gi < groups.len() && active[gi] implies formula_sat(
            asn,
            (#[trigger] groups[gi]).clauses.deep_view(),
        ) by {
            assert(group_wf(groups[gi], vs));
            assert(pairs_of(groups)[gi] == (groups[gi].ename@, groups[gi].rule@));
            lemma_spec_pairs_origin(m.entities, gi);
            let (ei, ej) = choose|ei: int, ej: int|
                #![trigger m.entities[ei].all_rules()[ej]]
                0 <= ei < m.entities.len() && 0 <= ej < m.entities[ei].all_rules().len()
                    && spec_pairs(m.entities)[gi] == (
                m.entities[ei].name,
                m.entities[ei].all_rules()[ej],
                );
            assert(groups[gi].ename@ == m.entities[ei].name);
            assert(groups[gi].rule@ == m.entities[ei].all_rules()[ej]);
            assert(entity_rules_hold(sel, m.entities[ei]));
            assert(rule_holds(sel, m.entities[ei].name, m.entities[ei].all_rules()[ej]));
            assert(rule_holds(sel_of(vs, asn), groups[gi].ename@, groups[gi].rule@)) by {
                assert(vs.contains(groups[gi].ename@));
                lemma_sel_roundtrip(vs, sel, groups[gi].ename@);
                assert forall|t: int|
                    0 <= t < groups[gi].rule@.targets.len() implies sel_of(vs, asn)(
                    #[trigger] groups[gi].rule@.targets[t],
                ) == sel(groups[gi].rule@.targets[t]) by {
                    assert(vs.contains(groups[gi].rule@.targets[t]));
                    lemma_sel_roundtrip(vs, sel, groups[gi].rule@.targets[t]);
                }
                lemma_rule_holds_congr(sel, sel_of(vs, asn), groups[gi].ename@, groups[gi].rule@);
            }
            assert(asn.len() == vs.len());
            assert(formula_sat(asn, groups[gi].clauses.deep_view()) <==> rule_holds(
                sel_of(vs, asn),
                groups[gi].ename@,
                groups[gi].rule@,
            ));
        }
        assert(units_sat(asn, units)) by {
            assert forall|k: int| 0 <= k < units.len() implies lit_sat(
                asn,
                #[trigger] units[k],
            ) by {
                if units[k].1 {
                    if k == 0 {
                        assert(asn[vn as int] == sel(vs[vn as int]));
                    } else {
                        assert(env_pins(m, ls, vs[units[k].0 as int]));
                        assert(sel(vs[units[k].0 as int]));
                        assert(asn[units[k].0 as int] == sel(vs[units[k].0 as int]));
                    }
                } else {
                    assert(env_shut(m, ls, vs[vn as int], vs[units[k].0 as int]));
                    assert(!sel(vs[units[k].0 as int]));
                    assert(asn[units[k].0 as int] == sel(vs[units[k].0 as int]));
                }
            }
        }
        assert(asn.len() == vs.len());
        assert(false);
    }
}

/// The probe assumptions alone are always satisfiable: pinned and denied
/// names never share a variable.
proof fn lemma_env_units_consistent(
    m: EntityMapView,
    vs: Seq<Seq<char>>,
    ls: Seq<Seq<char>>,
    vn: usize,
    units: Seq<Lit>,
)
    requires
        names_unique(vs),
        forall|x: Seq<char>| #[trigger] vs.contains(x) <==> has_var(m, x),
        (vn as int) < vs.len(),
        units.len() > 0 && units[0] == (vn, true),
        forall|k: int| 0 <= k < units.len() ==> (#[trigger] units[k]).0 < vs.len(),
        forall|k: int|
            0 < k < units.len() && (#[trigger] units[k]).1 ==> env_pins(
                m,
                ls,
                vs[units[k].0 as int],
            ),
        forall|k: int|
            0 <= k < units.len() && !(#[trigger] units[k]).1 ==> env_shut(
                m,
                ls,
                vs[vn as int],
                vs[units[k].0 as int],
            ),
    ensures
        exists|asn: Seq<bool>| asn.len() == vs.len() && units_sat(asn, units),
{
    let asn = Seq::new(
        vs.len(),
        |v: int|
            exists|k: int| 0 <= k < units.len() && (#[trigger] units[k]).1 && units[k].0 == v,
    );
    assert forall|k: int| 0 <= k < units.len() implies lit_sat(asn, #[trigger] units[k]) by {
        let v = units[k].0 as int;
        if units[k].1 {
            assert(asn[v]);
        } else {
            if asn[v] {
                let k2 = choose|k2: int|
                    0 <= k2 < units.len() && (#[trigger] units[k2]).1 && units[k2].0 == v;
                assert(env_shut(m, ls, vs[vn as int], vs[v]));
                if k2 == 0 {
                    assert(vs[v] == vs[vn as int]);
                } else {
                    assert(env_pins(m, ls, vs[v]));
                    lemma_pins_covers(m, ls, vs[v]);
                }
                assert(false);
            }
        }
    }
    assert(asn.len() == vs.len() && units_sat(asn, units));
}

/// Builds the probe assumptions for one environment: the probed variable
/// asserted first, then every pinned label variable, then the denial of
/// every other universe name that carries a variable.
fn build_env_units(
    map: &EntityMap,
    vars: &Vec<String>,
    env: &Env,
    vn: usize,
    n: &str,
    Ghost(m): Ghost<EntityMapView>,
    Ghost(vs): Ghost<Seq<Seq<char>>>,
) -> (units: Vec<Lit>)
    requires
        m == map@,
        vs == dv_strings(vars@),
        names_unique(vs),
        forall|x: Seq<char>| #[trigger] vs.contains(x) <==> has_var(m, x),
        (vn as int) < vs.len(),
        vs[vn as int] == n@,
        m.names.len() == map.names@.len(),
    ensures
        forall|k: int| 0 <= k < units@.len() ==> (#[trigger] units@[k]).0 < vs.len(),
        units@.len() > 0 && units@[0] == (vn, true),
        forall|k: int|
            0 < k < units@.len() && (#[trigger] units@[k]).1 ==> env_pins(
                m,
                env@.labels,
                vs[units@[k].0 as int],
            ),
        forall|k: int|
            0 <= k < units@.len() && !(#[trigger] units@[k]).1 ==> env_shut(
                m,
                env@.labels,
                vs[vn as int],
                vs[units@[k].0 as int],
            ),
        forall|x: Seq<char>|
            #[trigger] env_pins(m, env@.labels, x) ==> exists|k: int|
                0 <= k < units@.len() && (#[trigger] units@[k]).1 && vs[units@[k].0 as int] == x,
        forall|x: Seq<char>|
            #[trigger] env_shut(m, env@.labels, vs[vn as int], x) ==> exists|k: int|
                0 <= k < units@.len() && !(#[trigger] units@[k]).1 && vs[units@[k].0 as int] == x,
{
    let ghost ls = env@.labels;
    let mut units: Vec<Lit> = Vec::new();
    units.push((vn, true));
    proof {
        assert(units@ =~= seq![(vn, true)]);
    }
    // Pin every environment label that has a variable; a split label pins
    // both siblings.
    let mut li: usize = 0;
    while li < env.labels.len()
        invariant
            0 <= li <= env.labels@.len(),
            m == map@,
            vs == dv_strings(vars@),
            names_unique(vs),
            forall|x: Seq<char>| #[trigger] vs.contains(x) <==> has_var(m, x),
            (vn as int) < vs.len(),
            ls == env@.labels,
            ls.len() == env.labels@.len(),
            forall|k: int| 0 <= k < units@.len() ==> (#[trigger] units@[k]).0 < vs.len(),
            units@.len() > 0 && units@[0] == (vn, true),
            forall|k: int|
                0 < k < units@.len() ==> (#[trigger] units@[k]).1 && env_pins(
                    m,
                    ls,
                    vs[units@[k].0 as int],
                ),
            forall|x: Seq<char>|
                #[trigger] env_pins_upto(m, ls, li as int, x) ==> exists|k: int|
                    0 <= k < units@.len() && (#[trigger] units@[k]).1 && vs[units@[k].0 as int]
                        == x,
        decreases env.labels@.len() - li,
    {
        proof {
            assert(ls[li as int] == env.labels@[li as int]@);
        }
        let label = env.labels[li].as_str();
        let ghost prevu = units@;
        if crate::solver::map::names_vec_contains(&map.self_conflicts, label) {
            proof {
                assert(m.self_conflicts.contains(ls[li as int]));
            }
            let l1 = crate::solver::map::sibling_name(label, false);
            let l2 = crate::solver::map::sibling_name(label, true);
            match (find_var(vars, l1.as_str()), find_var(vars, l2.as_str())) {
                (Some(v1), Some(v2)) => {
                    proof {
                        assert(vs[v1 as int] == sib1(ls[li as int])) by {
                            assert(vs[v1 as int] == vars@[v1 as int]@);
                        }
                        assert(vs[v2 as int] == sib2(ls[li as int])) by {
                            assert(vs[v2 as int] == vars@[v2 as int]@);
                        }
                        assert(has_var(m, sib1(ls[li as int]))) by {
                            assert(vs.contains(vs[v1 as int]));
                        }
                        assert(has_var(m, sib2(ls[li as int]))) by {
                            assert(vs.contains(vs[v2 as int]));
                        }
                    }
                    units.push((v1, true));
                    units.push((v2, true));
                    proof {
                        assert(units@.len() == prevu.len() + 2);
                        assert(forall|k: int|
                            0 <= k < prevu.len() ==> #[trigger] units@[k] == prevu[k]);
                        assert(units@[prevu.len() as int] == (v1, true));
                        assert(units@[prevu.len() as int + 1] == (v2, true));
                        assert(env_pins(m, ls, vs[v1 as int]));
                        assert(env_pins(m, ls, vs[v2 as int]));
                        assert forall|x: Seq<char>|
                            #[trigger] env_pins_upto(m, ls, li as int + 1, x) implies exists|
                            k: int,
                        |
                            0 <= k < units@.len() && (#[trigger] units@[k]).1 && vs[units@[k].0 as int]
                                == x by {
                            let w = choose|w: int|
                                0 <= w < li + 1 && w < ls.len() && ((!m.self_conflicts.contains(
                                    #[trigger] ls[w],
                                ) && ls[w] == x && has_var(m, x)) || (m.self_conflicts.contains(
                                    ls[w],
                                ) && (x == sib1(ls[w]) || x == sib2(ls[w])) && has_var(
                                    m,
                                    sib1(ls[w]),
                                ) && has_var(m, sib2(ls[w]))));
                            if w < li {
                                assert(env_pins_upto(m, ls, li as int, x));
                                let k0 = choose|k0: int|
                                    0 <= k0 < prevu.len() && (#[trigger] prevu[k0]).1
                                        && vs[prevu[k0].0 as int] == x;
                                assert(units@[k0] == prevu[k0]);
                                assert((#[trigger] units@[k0]).1 && vs[units@[k0].0 as int] == x);
                            } else {
                                if x == sib1(ls[li as int]) {
                                    assert((#[trigger] units@[prevu.len() as int]).1
                                        && vs[units@[prevu.len() as int].0 as int] == x);
                                } else {
                                    assert((#[trigger] units@[prevu.len() as int + 1]).1
                                        && vs[units@[prevu.len() as int + 1].0 as int] == x);
                                }
                            }
                        }
                    }
                },
                _ => {
                    proof {
                        assert forall|x: Seq<char>|
                            #[trigger] env_pins_upto(m, ls, li as int + 1, x) implies exists|
                            k: int,
                        |
                            0 <= k < units@.len() && (#[trigger] units@[k]).1 && vs[units@[k].0 as int]
                                == x by {
                            let w = choose|w: int|
                                0 <= w < li + 1 && w < ls.len() && ((!m.self_conflicts.contains(
                                    #[trigger] ls[w],
                                ) && ls[w] == x && has_var(m, x)) || (m.self_conflicts.contains(
                                    ls[w],
                                ) && (x == sib1(ls[w]) || x == sib2(ls[w])) && has_var(
                                    m,
                                    sib1(ls[w]),
                                ) && has_var(m, sib2(ls[w]))));
                            if w < li {
                                assert(env_pins_upto(m, ls, li as int, x));
                            } else {
                                assert(!vs.contains(sib1(ls[li as int])) || !vs.contains(
                                    sib2(ls[li as int]),
                                ));
                                assert(false);
                            }
                        }
                    }
                },
            }
        } else {
            proof {
                assert(!m.self_conflicts.contains(ls[li as int]));
            }
            match find_var(vars, label) {
                Some(v) => {
                    proof {
                        assert(vs[v as int] == ls[li as int]) by {
                            assert(vs[v as int] == vars@[v as int]@);
                        }
                        assert(has_var(m, ls[li as int])) by {
                            assert(vs.contains(vs[v as int]));
                        }
                    }
                    units.push((v, true));
                    proof {
                        assert(forall|k: int|
                            0 <= k < prevu.len() ==> #[trigger] units@[k] == prevu[k]);
                        assert(units@[prevu.len() as int] == (v, true));
                        assert(env_pins(m, ls, vs[v as int]));
                        assert forall|x: Seq<char>|
                            #[trigger] env_pins_upto(m, ls, li as int + 1, x) implies exists|
                            k: int,
                        |
                            0 <= k < units@.len() && (#[trigger] units@[k]).1 && vs[units@[k].0 as int]
                                == x by {
                            let w = choose|w: int|
                                0 <= w < li + 1 && w < ls.len() && ((!m.self_conflicts.contains(
                                    #[trigger] ls[w],
                                ) && ls[w] == x && has_var(m, x)) || (m.self_conflicts.contains(
                                    ls[w],
                                ) && (x == sib1(ls[w]) || x == sib2(ls[w])) && has_var(
                                    m,
                                    sib1(ls[w]),
                                ) && has_var(m, sib2(ls[w]))));
                            if w < li {
                                assert(env_pins_upto(m, ls, li as int, x));
                                let k0 = choose|k0: int|
                                    0 <= k0 < prevu.len() && (#[trigger] prevu[k0]).1
                                        && vs[prevu[k0].0 as int] == x;
                                assert(units@[k0] == prevu[k0]);
                                assert((#[trigger] units@[k0]).1 && vs[units@[k0].0 as int] == x);
                            } else {
                                assert((#[trigger] units@[prevu.len() as int]).1
                                    && vs[units@[prevu.len() as int].0 as int] == x);
                            }
                        }
                    }
                },
                None => {
                    proof {
                        assert forall|x: Seq<char>|
                            #[trigger] env_pins_upto(m, ls, li as int + 1, x) implies exists|
                            k: int,
                        |
                            0 <= k < units@.len() && (#[trigger] units@[k]).1 && vs[units@[k].0 as int]
                                == x by {
                            let w = choose|w: int|
                                0 <= w < li + 1 && w < ls.len() && ((!m.self_conflicts.contains(
                                    #[trigger] ls[w],
                                ) && ls[w] == x && has_var(m, x)) || (m.self_conflicts.contains(
                                    ls[w],
                                ) && (x == sib1(ls[w]) || x == sib2(ls[w])) && has_var(
                                    m,
                                    sib1(ls[w]),
                                ) && has_var(m, sib2(ls[w]))));
                            if w < li {
                                assert(env_pins_upto(m, ls, li as int, x));
                            } else {
                                assert(!vs.contains(ls[li as int]));
                                assert(false);
                            }
                        }
                    }
                },
            }
        }
        li = li + 1;
    }
    proof {
        assert forall|x: Seq<char>| #[trigger] env_pins(m, ls, x) implies exists|k: int|
            0 <= k < units@.len() && (#[trigger] units@[k]).1 && vs[units@[k].0 as int] == x by {
            assert(env_pins_upto(m, ls, li as int, x));
        }
    }
    // Rule out every other universe name that has a variable.
    let mut oi: usize = 0;
    while oi < map.names.len()
        invariant
            0 <= oi <= map.names@.len(),
            m == map@,
            vs == dv_strings(vars@),
            names_unique(vs),
            forall|x: Seq<char>| #[trigger] vs.contains(x) <==> has_var(m, x),
            (vn as int) < vs.len(),
            vs[vn as int] == n@,
            ls == env@.labels,
            ls.len() == env.labels@.len(),
            m.names.len() == map.names@.len(),
            forall|k: int| 0 <= k < units@.len() ==> (#[trigger] units@[k]).0 < vs.len(),
            units@.len() > 0 && units@[0] == (vn, true),
            forall|k: int|
                0 < k < units@.len() && (#[trigger] units@[k]).1 ==> env_pins(
                    m,
                    ls,
                    vs[units@[k].0 as int],
                ),
            forall|k: int|
                0 <= k < units@.len() && !(#[trigger] units@[k]).1 ==> env_shut(
                    m,
                    ls,
                    vs[vn as int],
                    vs[units@[k].0 as int],
                ),
            forall|x: Seq<char>|
                #[trigger] env_pins(m, ls, x) ==> exists|k: int|
                    0 <= k < units@.len() && (#[trigger] units@[k]).1 && vs[units@[k].0 as int]
                        == x,
            forall|j: int|
                0 <= j < oi && has_var(m, #[trigger] m.names[j]) && m.names[j] != vs[vn as int]
                    && !label_covers(m.self_conflicts, ls, m.names[j]) ==> exists|k: int|
                    0 <= k < units@.len() && !(#[trigger] units@[k]).1 && vs[units@[k].0 as int]
                        == m.names[j],
        decreases map.names@.len() - oi,
    {
        proof {
            assert(m.names[oi as int] == map.names@[oi as int]@);
        }
        let other = map.names[oi].as_str();
        let mut is_label = false;
        let mut lj: usize = 0;
        while lj < env.labels.len()
            invariant
                0 <= lj <= env.labels@.len(),
                m == map@,
                ls == env@.labels,
                ls.len() == env.labels@.len(),
                0 <= oi < map.names@.len(),
                m.names.len() == map.names@.len(),
                other@ == m.names[oi as int],
                is_label <==> label_covers_upto(m.self_conflicts, ls, lj as int, other@),
            decreases env.labels@.len() - lj,
        {
            proof {
                assert(ls[lj as int] == env.labels@[lj as int]@);
            }
            let ghost was_label = is_label;
            let label = env.labels[lj].as_str();
            let mut here = false;
            if eq_str(label, other) {
                is_label = true;
                here = true;
            }
            if crate::solver::map::names_vec_contains(&map.self_conflicts, label) {
                let l1 = crate::solver::map::sibling_name(label, false);
                let l2 = crate::solver::map::sibling_name(label, true);
                if eq_str(l1.as_str(), other) || eq_str(l2.as_str(), other) {
                    is_label = true;
                    here = true;
                }
                proof {
                    assert(m.self_conflicts.contains(ls[lj as int]));
                }
            }
            proof {
                assert(is_label <==> label_covers_upto(
                    m.self_conflicts,
                    ls,
                    lj as int + 1,
                    other@,
                )) by {
                    if is_label {
                        if was_label {
                            let w = choose|w: int|
                                0 <= w < lj && w < ls.len() && ((#[trigger] ls[w]) == other@ || (
                                m.self_conflicts.contains(ls[w]) && (other@ == sib1(ls[w])
                                    || other@ == sib2(ls[w]))));
                            assert(0 <= w < lj + 1);
                        } else {
                            assert(ls[lj as int] == other@ || (m.self_conflicts.contains(
                                ls[lj as int],
                            ) && (other@ == sib1(ls[lj as int]) || other@ == sib2(
                                ls[lj as int],
                            ))));
                        }
                    } else {
                        if label_covers_upto(m.self_conflicts, ls, lj as int + 1, other@) {
                            let w = choose|w: int|
                                0 <= w < lj + 1 && w < ls.len() && ((#[trigger] ls[w]) == other@
                                    || (m.self_conflicts.contains(ls[w]) && (other@ == sib1(
                                    ls[w],
                                ) || other@ == sib2(ls[w]))));
                            if w < lj {
                                assert(label_covers_upto(m.self_conflicts, ls, lj as int, other@));
                            }
                            assert(false);
                        }
                    }
                }
            }
            lj = lj + 1;
        }
        proof {
            assert(is_label <==> label_covers(m.self_conflicts, ls, other@));
        }
        if !is_label && !eq_str(other, n) {
            match find_var(vars, other) {
                Some(v) => {
                    let ghost prevu = units@;
                    proof {
                        assert(vs[v as int] == other@) by {
                            assert(vs[v as int] == vars@[v as int]@);
                        }
                        assert(has_var(m, other@)) by {
                            assert(vs.contains(vs[v as int]));
                        }
                        assert(env_shut(m, ls, vs[vn as int], other@)) by {
                            assert(m.names.contains(m.names[oi as int]));
                        }
                    }
                    units.push((v, false));
                    proof {
                        assert(forall|k: int|
                            0 <= k < prevu.len() ==> #[trigger] units@[k] == prevu[k]);
                        assert(units@[prevu.len() as int] == (v, false));
                        assert forall|x: Seq<char>| #[trigger] env_pins(m, ls, x) implies exists|
                            k: int,
                        |
                            0 <= k < units@.len() && (#[trigger] units@[k]).1 && vs[units@[k].0 as int]
                                == x by {
                            let k0 = choose|k0: int|
                                0 <= k0 < prevu.len() && (#[trigger] prevu[k0]).1
                                    && vs[prevu[k0].0 as int] == x;
                            assert(units@[k0] == prevu[k0]);
                            assert((#[trigger] units@[k0]).1 && vs[units@[k0].0 as int] == x);
                        }
                        assert forall|j: int|
                            0 <= j < oi + 1 && has_var(m, #[trigger] m.names[j]) && m.names[j]
                                != vs[vn as int] && !label_covers(m.self_conflicts, ls, m.names[j])
                            implies exists|k: int|
                            0 <= k < units@.len() && !(#[trigger] units@[k]).1 && vs[units@[k].0 as int]
                                == m.names[j] by {
                            if j < oi {
                                let k0 = choose|k0: int|
                                    0 <= k0 < prevu.len() && !(#[trigger] prevu[k0]).1
                                        && vs[prevu[k0].0 as int] == m.names[j];
                                assert(units@[k0] == prevu[k0]);
                                assert(!(#[trigger] units@[k0]).1 && vs[units@[k0].0 as int]
                                    == m.names[j]);
                            } else {
                                assert(!(#[trigger] units@[prevu.len() as int]).1
                                    && vs[units@[prevu.len() as int].0 as int] == m.names[j]);
                            }
                        }
                    }
                },
                None => {
                    proof {
                        assert(!vs.contains(other@));
                        assert forall|j: int|
                            0 <= j < oi + 1 && has_var(m, #[trigger] m.names[j]) && m.names[j]
                                != vs[vn as int] && !label_covers(m.self_conflicts, ls, m.names[j])
                            implies exists|k: int|
                            0 <= k < units@.len() && !(#[trigger] units@[k]).1 && vs[units@[k].0 as int]
                                == m.names[j] by {
                            if j == oi {
                                assert(!has_var(m, m.names[j]));
                                assert(false);
                            }
                        }
                    }
                },
            }
        } else {
            proof {
                assert forall|j: int|
                    0 <= j < oi + 1 && has_var(m, #[trigger] m.names[j]) && m.names[j]
                        != vs[vn as int] && !label_covers(m.self_conflicts, ls, m.names[j]) implies
                    exists|k: int|
                    0 <= k < units@.len() && !(#[trigger] units@[k]).1 && vs[units@[k].0 as int]
                        == m.names[j] by {
                    if j == oi {
                        assert(false);
                    }
                }
            }
        }
        oi = oi + 1;
    }
    proof {
        assert forall|x: Seq<char>|
            #[trigger] env_shut(m, ls, vs[vn as int], x) implies exists|k: int|
            0 <= k < units@.len() && !(#[trigger] units@[k]).1 && vs[units@[k].0 as int] == x by {
            assert(m.names.contains(x));
            let j = choose|j: int| 0 <= j < m.names.len() && m.names[j] == x;
            assert(has_var(m, m.names[j]) && m.names[j] != vs[vn as int] && !label_covers(
                m.self_conflicts,
                ls,
                m.names[j],
            ));
        }
    }
    units
}

fn solve_with_envs(map: &EntityMap, envs: &Vec<Env>) -> (r: SolverOutput)
    ensures
        env_sound(map@, envs@, r@),
{
    let ghost m = map@;
    let vars = collect_vars(map);
    let groups = encode(map, &vars);
    let ghost vs = dv_strings(vars@);
    let nvars = vars.len();
    let mut raw: Vec<ConflictEntry> = Vec::new();
    let mut i: usize = 0;
    while i < map.names.len()
        invariant
            0 <= i <= map.names@.len(),
            m == map@,
            vs == dv_strings(vars@),
            names_unique(vs),
            nvars == vs.len(),
            forall|n: Seq<char>| #[trigger] vs.contains(n) <==> has_var(m, n),
            forall|gi: int| 0 <= gi < groups@.len() ==> group_wf(#[trigger] groups@[gi], vs),
            pairs_of(groups@) == spec_pairs(m.entities),
            m.names.len() == map.names@.len(),
            forall|ki: int|
                0 <= ki < dv_conflicts(raw@).len() ==> entry_sound(
                    m,
                    (#[trigger] dv_conflicts(raw@)[ki]).0,
                    dv_conflicts(raw@)[ki].1,
                ),
            envs@.len() == 0 ==> raw@.len() == 0,
            envs@.len() > 0 && raw@.len() == 0 ==> forall|j: int|
                0 <= j < i && has_var(m, #[trigger] m.names[j]) ==> env_cleared(
                    m,
                    envs@,
                    m.names[j],
                ),
            raw@.len() > 0 ==> exists|nn: Seq<char>|
                #[trigger] probed(m, nn) && !env_cleared(m, envs@, nn),
        decreases map.names@.len() - i,
    {
        proof {
            assert(m.names[i as int] == map.names@[i as int]@);
        }
        let n = map.names[i].as_str();
        let vn = match find_var(&vars, n) {
            None => {
                proof {
                    assert(!vs.contains(n@));
                    assert(!has_var(m, m.names[i as int]));
                }
                i = i + 1;
                continue ;
            },
            Some(vn) => vn,
        };
        proof {
            assert(vs[vn as int] == n@) by {
                assert(vs[vn as int] == vars@[vn as int]@);
            }
            assert(vs.contains(n@)) by {
                assert(vs[vn as int] == n@);
            }
            assert(probed(m, m.names[i as int])) by {
                assert(m.names.contains(m.names[i as int]));
            }
        }
        let mut union_core: Vec<EntityRule> = Vec::new();
        let mut cleared = false;
        let mut e: usize = 0;
        while e < envs.len()
            invariant_except_break
                !cleared,
            invariant
                0 <= e <= envs@.len(),
                m == map@,
                vs == dv_strings(vars@),
                names_unique(vs),
                nvars == vs.len(),
                forall|nn: Seq<char>| #[trigger] vs.contains(nn) <==> has_var(m, nn),
                vn < nvars,
                vs[vn as int] == m.names[i as int],
                vs[vn as int] == n@,
                0 <= i < m.names.len(),
                m.names.len() == map.names@.len(),
                forall|gi: int| 0 <= gi < groups@.len() ==> group_wf(#[trigger] groups@[gi], vs),
                pairs_of(groups@) == spec_pairs(m.entities),
                forall|j: int|
                    0 <= j < dv_rules(union_core@).len() ==> rule_of_map(
                        m,
                        #[trigger] dv_rules(union_core@)[j],
                    ),
                forall|e2: int|
                    0 <= e2 < e ==> !env_probe_ok(
                        m,
                        (#[trigger] envs@[e2])@.labels,
                        m.names[i as int],
                    ),
                e > 0 ==> dv_rules(union_core@).len() > 0,
                e == 0 ==> union_core@.len() == 0,
            ensures
                forall|j: int|
                    0 <= j < dv_rules(union_core@).len() ==> rule_of_map(
                        m,
                        #[trigger] dv_rules(union_core@)[j],
                    ),
                envs@.len() == 0 ==> union_core@.len() == 0,
                cleared ==> env_cleared(m, envs@, m.names[i as int]),
                !cleared ==> forall|e2: int|
                    0 <= e2 < envs@.len() ==> !env_probe_ok(
                        m,
                        (#[trigger] envs@[e2])@.labels,
                        m.names[i as int],
                    ),
                !cleared && envs@.len() > 0 ==> dv_rules(union_core@).len() > 0,
            decreases envs@.len() - e,
        {
            let env = &envs[e];
            proof {
                assert(env@ == envs@[e as int]@);
            }
            let units = build_env_units(map, &vars, env, vn, n, Ghost(m), Ghost(vs));
            match probe_check(&groups, &make_all_active(groups.len()), &units, nvars) {
                Some(asn) => {
                    proof {
                        assert(make_all_active_spec(groups@.len() as int) =~= Seq::new(
                            groups@.len(),
                            |x: int| true,
                        ));
                        assert forall|gi: int| 0 <= gi < groups@.len() implies formula_sat(
                            asn@,
                            (#[trigger] groups@[gi]).clauses.deep_view(),
                        ) by {
                            assert(make_all_active_spec(groups@.len() as int)[gi]);
                        }
                        lemma_env_probe_sat(m, vs, env@.labels, vn, units@, groups@, asn@);
                        assert(env_cleared(m, envs@, m.names[i as int])) by {
                            assert(env_probe_ok(
                                m,
                                (#[trigger] envs@[e as int])@.labels,
                                m.names[i as int],
                            ));
                        }
                    }
                    cleared = true;
                    break ;
                },
                None => {
                    proof {
                        assert(make_all_active_spec(groups@.len() as int) =~= Seq::new(
                            groups@.len(),
                            |x: int| true,
                        ));
                    }
                    let active = minimize(&groups, &units, nvars);
                    let mut core = core_rules(&groups, &active, map);
                    proof {
                        lemma_env_probe_unsat(
                            m,
                            vs,
                            env@.labels,
                            vn,
                            units@,
                            groups@,
                            Seq::new(groups@.len(), |x: int| true),
                        );
                        assert(!env_probe_ok(
                            m,
                            (#[trigger] envs@[e as int])@.labels,
                            m.names[i as int],
                        ));
                        lemma_env_units_consistent(m, vs, env@.labels, vn, units@);
                        let asn0 = choose|asn0: Seq<bool>|
                            asn0.len() == vs.len() && units_sat(asn0, units@);
                        assert(!(active_groups_sat(asn0, groups@, active@) && units_sat(
                            asn0,
                            units@,
                        )));
                        assert(!active_groups_sat(asn0, groups@, active@));
                        let gbad = choose|gbad: int|
                            0 <= gbad < groups@.len() && active@[gbad] && !formula_sat(
                                asn0,
                                (#[trigger] groups@[gbad]).clauses.deep_view(),
                            );
                        assert(dv_rules(core@).contains(groups@[gbad].rule@));
                        assert(dv_rules(core@).len() > 0) by {
                            let w = choose|w: int|
                                0 <= w < dv_rules(core@).len() && dv_rules(core@)[w] == groups@[
                                    gbad
                                ].rule@;
                        }
                    }
                    let ghost prevunion = dv_rules(union_core@);
                    let ghost corev = dv_rules(core@);
                    union_core.append(&mut core);
                    proof {
                        assert(dv_rules(union_core@) =~= prevunion + corev);
                        assert forall|j: int|
                            0 <= j < dv_rules(union_core@).len() implies rule_of_map(
                            m,
                            #[trigger] dv_rules(union_core@)[j],
                        ) by {
                            if j < prevunion.len() {
                                assert(dv_rules(union_core@)[j] == prevunion[j]);
                            } else {
                                assert(dv_rules(union_core@)[j] == corev[j - prevunion.len()]);
                            }
                        }
                    }
                },
            }
            e = e + 1;
        }
        if !cleared && union_core.len() > 0 {
            let key = orig_key(&map.self_conflicts, n);
            proof {
                assert(is_key_of(m.self_conflicts, m.names[i as int], key@));
                assert(!env_cleared(m, envs@, m.names[i as int])) by {
                    if env_cleared(m, envs@, m.names[i as int]) {
                        let e2 = choose|e2: int|
                            0 <= e2 < envs@.len() && env_probe_ok(
                                m,
                                (#[trigger] envs@[e2])@.labels,
                                m.names[i as int],
                            );
                        assert(false);
                    }
                }
            }
            let ghost prevraw = dv_conflicts(raw@);
            raw.push((key, union_core));
            proof {
                assert(dv_conflicts(raw@) =~= prevraw.push(
                    (raw@[raw@.len() - 1].0@, dv_rules(raw@[raw@.len() - 1].1@)),
                ));
                assert forall|ki: int|
                    0 <= ki < dv_conflicts(raw@).len() implies entry_sound(
                    m,
                    (#[trigger] dv_conflicts(raw@)[ki]).0,
                    dv_conflicts(raw@)[ki].1,
                ) by {
                    if ki < prevraw.len() {
                        assert(dv_conflicts(raw@)[ki] == prevraw[ki]);
                    }
                }
                assert(#[trigger] probed(m, m.names[i as int]) && !env_cleared(
                    m,
                    envs@,
                    m.names[i as int],
                ));
            }
        } else {
            proof {
                if envs@.len() > 0 && raw@.len() == 0 {
                    assert forall|j: int|
                        0 <= j < i + 1 && has_var(m, #[trigger] m.names[j]) implies env_cleared(
                        m,
                        envs@,
                        m.names[j],
                    ) by {
                        if j == i {
                            assert(cleared);
                        }
                    }
                }
            }
        }
        i = i + 1;
    }
    if raw.len() == 0 {
        proof {
            if envs@.len() > 0 {
                assert forall|nn: Seq<char>| probed(m, nn) implies #[trigger] env_cleared(
                    m,
                    envs@,
                    nn,
                ) by {
                    assert(m.names.contains(nn));
                    let j = choose|j: int| 0 <= j < m.names.len() && m.names[j] == nn;
                    assert(has_var(m, m.names[j]));
                }
            }
        }
        SolverOutput::new_ok()
    } else {
        let r = SolverOutput::new_conflict(raw);
        proof {
            let rawv = dv_conflicts(raw@);
            let p = |k: Seq<char>, l: Seq<RuleView>| entry_sound(m, k, l);
            assert forall|kk: Seq<char>, l: Seq<RuleView>| p(kk, l) implies #[trigger] p(
                kk,
                crate::model::rule::canon_rules(l),
            ) by {
                lemma_entry_sound_canon(m, kk, l);
            }
            assert forall|kk: Seq<char>, l1: Seq<RuleView>, l2: Seq<RuleView>|
                p(kk, l1) && p(kk, l2) implies #[trigger] p(
                kk,
                crate::model::rule::canon_rules(l1 + l2),
            ) by {
                lemma_entry_sound_union(m, kk, l1, l2);
            }
            crate::solver::solver::lemma_canon_conflicts_entries(p, rawv);
            crate::solver::solver::lemma_canon_conflicts_nonempty(rawv);
            let nn = choose|nn: Seq<char>|
                #[trigger] probed(m, nn) && !env_cleared(m, envs@, nn);
            assert(!(forall|n2: Seq<char>|
                probed(m, n2) ==> #[trigger] env_cleared(m, envs@, n2)));
        }
        r
    }
}

/// A mask marking every group active.
fn make_all_active(len: usize) -> (r: Vec<bool>)
    ensures
        r@ == make_all_active_spec(len as int),
{
    let mut out: Vec<bool> = Vec::new();
    let mut t: usize = 0;
    while t < len
        invariant
            0 <= t <= len,
            out@.len() == t,
            forall|j: int| 0 <= j < t ==> out@[j],
        decreases len - t,
    {
        out.push(true);
        t = t + 1;
    }
    proof {
        assert(out@ =~= make_all_active_spec(len as int));
    }
    out
}

pub open spec fn make_all_active_spec(len: int) -> Seq<bool> {
    Seq::new(len as nat, |x: int| true)
}

} // verus!
