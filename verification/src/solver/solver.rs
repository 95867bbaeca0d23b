//! The common solver result: satisfiable, or a conflict map from entity
//! names to the offending rules, and the merge operator that composes
//! engine verdicts.
//!
//! Conflict maps are kept sorted by name with sorted, duplicate-free rule
//! lists, so merged verdicts are deterministic.

use vstd::prelude::*;

use crate::model::rule::{
    canon_rules, canon_rules_vec, clone_rules_vec, dv_rules, EntityRule, RuleView,
};
use crate::order::{cmp_str, lemma_str_cmp_zero, str_cmp};

verus! {

/// One conflict-map entry: an unschedulable name and its offending rules.
pub type ConflictEntry = (String, Vec<EntityRule>);

/// The views of a conflict map.
pub open spec fn dv_conflicts(s: Seq<ConflictEntry>) -> Seq<(Seq<char>, Seq<RuleView>)> {
    Seq::new(s.len(), |i: int| (s[i].0@, dv_rules(s[i].1@)))
}

/// Puts an entry into a sorted conflict map; rule lists of an equal key are
/// unioned and re-canonicalized.
pub open spec fn insert_conflict(
    m: Seq<(Seq<char>, Seq<RuleView>)>,
    k: Seq<char>,
    rules: Seq<RuleView>,
) -> Seq<(Seq<char>, Seq<RuleView>)>
    decreases m.len(),
{
    if m.len() == 0 {
        seq![(k, rules)]
    } else {
        let c = str_cmp(k, m[0].0);
        if c == 0 {
            seq![(k, canon_rules(m[0].1 + rules))] + m.drop_first()
        } else if c < 0 {
            seq![(k, rules)] + m
        } else {
            seq![m[0]] + insert_conflict(m.drop_first(), k, rules)
        }
    }
}

/// The canonical conflict map built from raw entries, each rule list
/// canonicalized, entries applied left to right.
pub open spec fn canon_conflicts(s: Seq<(Seq<char>, Seq<RuleView>)>) -> Seq<
    (Seq<char>, Seq<RuleView>),
>
    decreases s.len(),
{
    if s.len() == 0 {
        Seq::empty()
    } else {
        insert_conflict(canon_conflicts(s.drop_last()), s.last().0, canon_rules(s.last().1))
    }
}


proof fn lemma_insert_conflict_skip(
    m: Seq<(Seq<char>, Seq<RuleView>)>,
    k: Seq<char>,
    rules: Seq<RuleView>,
    i: int,
)
    requires
        0 <= i <= m.len(),
        forall|j: int| 0 <= j < i ==> str_cmp(k, #[trigger] m[j].0) > 0,
    ensures
        insert_conflict(m, k, rules) == m.take(i) + insert_conflict(m.skip(i), k, rules),
    decreases i,
{
    if i == 0 {
        assert(m.skip(0) =~= m);
        assert(m.take(0) + insert_conflict(m, k, rules) =~= insert_conflict(m, k, rules));
    } else {
        lemma_insert_conflict_skip(m.drop_first(), k, rules, i - 1);
        assert(forall|j: int| 0 <= j < i - 1 ==> str_cmp(k, #[trigger] m.drop_first()[j].0) > 0)
            by {
            assert(forall|j: int| 0 <= j < i - 1 ==> m.drop_first()[j] == #[trigger] m[j + 1]);
        }
        assert(str_cmp(k, m[0].0) > 0);
        assert(m.drop_first().take(i - 1) =~= m.take(i).drop_first());
        assert(m.drop_first().skip(i - 1) =~= m.skip(i));
        assert(seq![m[0]] + (m.drop_first().take(i - 1) + insert_conflict(
            m.drop_first().skip(i - 1),
            k,
            rules,
        )) =~= m.take(i) + insert_conflict(m.skip(i), k, rules));
    }
}

/// Puts one entry into a sorted conflict-map vector.
pub fn insert_conflict_vec(m: &mut Vec<ConflictEntry>, k: String, rules: Vec<EntityRule>)
    ensures
        dv_conflicts(final(m)@) == insert_conflict(dv_conflicts(old(m)@), k@, dv_rules(rules@)),
{
    let ghost orig = dv_conflicts(m@);
    let ghost krules = dv_rules(rules@);
    let n = m.len();
    let mut i: usize = 0;
    let mut merge_here = false;
    while i < n
        invariant_except_break
            !merge_here,
        invariant
            0 <= i <= n,
            n == m@.len(),
            orig == dv_conflicts(m@),
            orig.len() == n,
            forall|j: int| 0 <= j < i ==> str_cmp(k@, #[trigger] orig[j].0) > 0,
        ensures
            0 <= i <= n,
            n == m@.len(),
            orig == dv_conflicts(m@),
            forall|j: int| 0 <= j < i ==> str_cmp(k@, #[trigger] orig[j].0) > 0,
            i < n ==> str_cmp(k@, orig[i as int].0) <= 0,
            merge_here <==> (i < n && str_cmp(k@, orig[i as int].0) == 0),
        decreases n - i,
    {
        proof {
            assert(orig[i as int] == (m@[i as int].0@, dv_rules(m@[i as int].1@)));
        }
        let c = cmp_str(k.as_str(), m[i].0.as_str());
        if c == 0 {
            merge_here = true;
            break ;
        }
        if c < 0 {
            break ;
        }
        i = i + 1;
    }
    proof {
        lemma_insert_conflict_skip(orig, k@, krules, i as int);
        if i < n {
            assert(orig.skip(i as int)[0] == orig[i as int]);
        }
    }
    if merge_here {
        proof {
            assert(orig[i as int] == (m@[i as int].0@, dv_rules(m@[i as int].1@)));
            lemma_str_cmp_zero(k@, orig[i as int].0);
        }
        let entry = m.remove(i);
        let ghost entryrules = dv_rules(entry.1@);
        let mut combined = entry.1;
        let mut extra = rules;
        combined.append(&mut extra);
        proof {
            assert(entryrules == orig[i as int].1);
            assert(dv_rules(combined@) =~= entryrules + krules);
        }
        let combined = canon_rules_vec(combined);
        m.insert(i, (k, combined));
        proof {
            assert(insert_conflict(orig.skip(i as int), k@, krules) == seq![
                (k@, canon_rules(orig[i as int].1 + krules)),
            ] + orig.skip(i as int).drop_first());
            assert(dv_conflicts(m@) =~= orig.take(i as int) + (seq![
                (k@, canon_rules(orig[i as int].1 + krules)),
            ] + orig.skip(i as int).drop_first()));
        }
    } else if i < n {
        proof {
            assert(insert_conflict(orig.skip(i as int), k@, krules) == seq![(k@, krules)]
                + orig.skip(i as int));
        }
        m.insert(i, (k, rules));
        proof {
            assert(dv_conflicts(m@) =~= orig.take(i as int) + (seq![(k@, krules)] + orig.skip(
                i as int,
            )));
        }
    } else {
        proof {
            assert(orig.skip(i as int) =~= Seq::<(Seq<char>, Seq<RuleView>)>::empty());
            assert(orig.take(i as int) =~= orig);
            assert(insert_conflict(Seq::empty(), k@, krules) == seq![(k@, krules)]);
        }
        m.push((k, rules));
        proof {
            assert(dv_conflicts(m@) =~= orig + seq![(k@, krules)]);
            assert(orig + seq![(k@, krules)] =~= orig + insert_conflict(Seq::empty(), k@, krules));
        }
    }
}

/// The result a solver engine returns: success, or a map of conflicts.
#[derive(Debug, PartialEq, Eq)]
pub enum SolverOutput {
    Sat,
    Conflict(Vec<ConflictEntry>),
}

#[verifier::ext_equal]
pub enum SolverOutputView {
    Sat,
    Conflict(Seq<(Seq<char>, Seq<RuleView>)>),
}

impl View for SolverOutput {
    type V = SolverOutputView;

    open spec fn view(&self) -> SolverOutputView {
        match self {
            SolverOutput::Sat => SolverOutputView::Sat,
            SolverOutput::Conflict(m) => SolverOutputView::Conflict(dv_conflicts(m@)),
        }
    }
}

/// Merging two verdicts: satisfiable is the identity; two conflict maps
/// union their entries into the canonical map, so every merged rule list is
/// sorted and deduplicated.
pub open spec fn spec_merge(a: SolverOutputView, b: SolverOutputView) -> SolverOutputView {
    match (a, b) {
        (SolverOutputView::Sat, r) => r,
        (l, SolverOutputView::Sat) => l,
        (SolverOutputView::Conflict(ma), SolverOutputView::Conflict(mb)) => SolverOutputView::Conflict(
            canon_conflicts(ma + mb),
        ),
    }
}

/// Rebuilds raw conflict entries in canonical form: every rule list sorted
/// and deduplicated, entries with an equal name unioned, entries ordered by
/// name.
fn canonicalize_entries(conflicts: Vec<ConflictEntry>) -> (out: Vec<ConflictEntry>)
    ensures
        dv_conflicts(out@) == canon_conflicts(dv_conflicts(conflicts@)),
{
    let ghost orig = dv_conflicts(conflicts@);
    let total = conflicts.len();
    let mut out: Vec<ConflictEntry> = Vec::new();
    let mut rest = conflicts;
    proof {
        assert(orig.take(0) =~= Seq::<(Seq<char>, Seq<RuleView>)>::empty());
        assert(dv_conflicts(out@) =~= canon_conflicts(orig.take(0)));
        assert(dv_conflicts(rest@) =~= orig.skip(0));
    }
    let mut i: usize = 0;
    while rest.len() > 0
        invariant
            0 <= i <= total,
            total == orig.len(),
            i + rest@.len() == total,
            dv_conflicts(rest@) == orig.skip(i as int),
            dv_conflicts(out@) == canon_conflicts(orig.take(i as int)),
        decreases rest@.len(),
    {
        let ghost prev = dv_conflicts(rest@);
        let p = rest.remove(0);
        proof {
            assert(prev[0] == orig[i as int]);
            assert(prev[0] == (p.0@, dv_rules(p.1@)));
            assert(dv_conflicts(rest@) =~= prev.drop_first());
            assert(prev.drop_first() =~= orig.skip(i as int + 1));
            assert(orig.take(i as int + 1).drop_last() =~= orig.take(i as int));
            assert(orig.take(i as int + 1).last() == orig[i as int]);
        }
        let canon = canon_rules_vec(p.1);
        insert_conflict_vec(&mut out, p.0, canon);
        i = i + 1;
    }
    proof {
        assert(orig.take(i as int) =~= orig);
    }
    out
}

impl SolverOutput {
    pub fn new_ok() -> (r: Self)
        ensures
            r@ == SolverOutputView::Sat,
    {
        SolverOutput::Sat
    }

    /// Builds a conflict verdict; every rule list is sorted and
    /// deduplicated, entries with an equal name are unioned, and entries are
    /// ordered by name.
    pub fn new_conflict(conflicts: Vec<ConflictEntry>) -> (r: Self)
        ensures
            r@ == SolverOutputView::Conflict(canon_conflicts(dv_conflicts(conflicts@))),
    {
        SolverOutput::Conflict(canonicalize_entries(conflicts))
    }

    /// Combines this verdict with another; see [`spec_merge`]: satisfiable
    /// is the identity, and two conflict maps union their entries with every
    /// rule list sorted and deduplicated.
    pub fn merge(self, other: Self) -> (r: SolverOutput)
        ensures
            r@ == spec_merge(self@, other@),
    {
        match (self, other) {
            (SolverOutput::Sat, SolverOutput::Sat) => SolverOutput::Sat,
            (SolverOutput::Sat, SolverOutput::Conflict(m)) => SolverOutput::Conflict(m),
            (SolverOutput::Conflict(m), SolverOutput::Sat) => SolverOutput::Conflict(m),
            (SolverOutput::Conflict(ma), SolverOutput::Conflict(mb)) => {
                let ghost va = dv_conflicts(ma@);
                let ghost vb = dv_conflicts(mb@);
                let mut all = ma;
                let mut tail = mb;
                let ghost apre = all@;
                all.append(&mut tail);
                proof {
                    assert(all@ == apre + mb@);
                    assert(dv_conflicts(all@) =~= va + vb);
                }
                SolverOutput::Conflict(canonicalize_entries(all))
            },
        }
    }

    pub fn is_ok(&self) -> (r: bool)
        ensures
            r == (self@ is Sat),
    {
        matches!(self, SolverOutput::Sat)
    }

    pub fn is_conflict(&self) -> (r: bool)
        ensures
            r == (self@ is Conflict),
    {
        matches!(self, SolverOutput::Conflict(_))
    }

    /// The unschedulable names, in map order, when there is a conflict.
    pub fn get_unscheduable(&self) -> (r: Option<Vec<String>>)
        ensures
            match self@ {
                SolverOutputView::Sat => r is None,
                SolverOutputView::Conflict(m) => r is Some && r->0@.len() == m.len() && (forall|
                    i: int,
                |
                    0 <= i < m.len() ==> r->0@[i]@ == m[i].0),
            },
    {
        match self {
            SolverOutput::Sat => None,
            SolverOutput::Conflict(m) => {
                let mut out: Vec<String> = Vec::new();
                let mut i: usize = 0;
                while i < m.len()
                    invariant
                        0 <= i <= m@.len(),
                        out@.len() == i,
                        forall|j: int|
                            0 <= j < i ==> out@[j]@ == dv_conflicts(m@)[j].0,
                    decreases m@.len() - i,
                {
                    out.push(m[i].0.clone());
                    proof {
                        assert(dv_conflicts(m@)[i as int].0 == m@[i as int].0@);
                    }
                    i = i + 1;
                }
                Some(out)
            },
        }
    }

    /// A copy of the conflict map, when there is a conflict.
    pub fn get_conflict_rules(&self) -> (r: Option<Vec<ConflictEntry>>)
        ensures
            match self@ {
                SolverOutputView::Sat => r is None,
                SolverOutputView::Conflict(m) => r is Some && dv_conflicts(r->0@) == m,
            },
    {
        match self {
            SolverOutput::Sat => None,
            SolverOutput::Conflict(m) => {
                let mut out: Vec<ConflictEntry> = Vec::new();
                let mut i: usize = 0;
                while i < m.len()
                    invariant
                        0 <= i <= m@.len(),
                        out@.len() == i,
                        forall|j: int|
                            0 <= j < i ==> #[trigger] dv_conflicts(out@)[j] == dv_conflicts(
                                m@,
                            )[j],
                    decreases m@.len() - i,
                {
                    let name = m[i].0.clone();
                    let rules = clone_rules_vec(&m[i].1);
                    let ghost prevout = out@;
                    out.push((name, rules));
                    proof {
                        assert forall|j: int|
                            0 <= j < i + 1 implies #[trigger] dv_conflicts(out@)[j]
                            == dv_conflicts(m@)[j] by {
                            if j < i {
                                assert(out@[j] == prevout[j]);
                                assert(dv_conflicts(prevout)[j] == dv_conflicts(m@)[j]);
                                assert(dv_conflicts(out@)[j] == (out@[j].0@, dv_rules(
                                    out@[j].1@,
                                )));
                            } else {
                                assert(dv_conflicts(out@)[j] == (out@[j].0@, dv_rules(
                                    out@[j].1@,
                                )));
                                assert(dv_conflicts(m@)[j] == (m@[j].0@, dv_rules(m@[j].1@)));
                            }
                        }
                    }
                    i = i + 1;
                }
                proof {
                    assert(dv_conflicts(out@) =~= dv_conflicts(m@));
                }
                Some(out)
            },
        }
    }
}

/// An entry predicate that survives canonicalization and key-collision
/// unions survives sorted insertion.
pub proof fn lemma_insert_conflict_entries(
    p: spec_fn(Seq<char>, Seq<RuleView>) -> bool,
    m: Seq<(Seq<char>, Seq<RuleView>)>,
    k: Seq<char>,
    rules: Seq<RuleView>,
)
    requires
        forall|i: int| 0 <= i < m.len() ==> p((#[trigger] m[i]).0, m[i].1),
        p(k, rules),
        forall|kk: Seq<char>, l1: Seq<RuleView>, l2: Seq<RuleView>|
            p(kk, l1) && p(kk, l2) ==> #[trigger] p(kk, canon_rules(l1 + l2)),
    ensures
        forall|i: int|
            0 <= i < insert_conflict(m, k, rules).len() ==> p(
                (#[trigger] insert_conflict(m, k, rules)[i]).0,
                insert_conflict(m, k, rules)[i].1,
            ),
    decreases m.len(),
{
    let out = insert_conflict(m, k, rules);
    if m.len() == 0 {
        assert(out[0] == (k, rules));
    } else {
        let c = str_cmp(k, m[0].0);
        if c == 0 {
            crate::order::lemma_str_cmp_zero(k, m[0].0);
            assert(p(k, m[0].1));
            assert forall|i: int| 0 <= i < out.len() implies p(
                (#[trigger] out[i]).0,
                out[i].1,
            ) by {
                if i == 0 {
                    assert(out[0] == (k, canon_rules(m[0].1 + rules)));
                } else {
                    assert(out[i] == m.drop_first()[i - 1]);
                    assert(m.drop_first()[i - 1] == m[i]);
                }
            }
        } else if c < 0 {
            assert forall|i: int| 0 <= i < out.len() implies p(
                (#[trigger] out[i]).0,
                out[i].1,
            ) by {
                if i == 0 {
                    assert(out[0] == (k, rules));
                } else {
                    assert(out[i] == m[i - 1]);
                }
            }
        } else {
            assert(forall|i: int|
                0 <= i < m.drop_first().len() ==> p(
                    (#[trigger] m.drop_first()[i]).0,
                    m.drop_first()[i].1,
                ));
            lemma_insert_conflict_entries(p, m.drop_first(), k, rules);
            let rest = insert_conflict(m.drop_first(), k, rules);
            assert forall|i: int| 0 <= i < out.len() implies p(
                (#[trigger] out[i]).0,
                out[i].1,
            ) by {
                if i == 0 {
                    assert(out[0] == m[0]);
                } else {
                    assert(out[i] == rest[i - 1]);
                }
            }
        }
    }
}

/// An entry predicate that survives canonicalization and key-collision
/// unions holds of every entry of the canonical map when it holds of every
/// raw entry.
pub proof fn lemma_canon_conflicts_entries(
    p: spec_fn(Seq<char>, Seq<RuleView>) -> bool,
    s: Seq<(Seq<char>, Seq<RuleView>)>,
)
    requires
        forall|i: int| 0 <= i < s.len() ==> p((#[trigger] s[i]).0, s[i].1),
        forall|kk: Seq<char>, l: Seq<RuleView>| p(kk, l) ==> #[trigger] p(kk, canon_rules(l)),
        forall|kk: Seq<char>, l1: Seq<RuleView>, l2: Seq<RuleView>|
            p(kk, l1) && p(kk, l2) ==> #[trigger] p(kk, canon_rules(l1 + l2)),
    ensures
        forall|i: int|
            0 <= i < canon_conflicts(s).len() ==> p(
                (#[trigger] canon_conflicts(s)[i]).0,
                canon_conflicts(s)[i].1,
            ),
    decreases s.len(),
{
    if s.len() > 0 {
        assert(forall|i: int|
            0 <= i < s.drop_last().len() ==> p((#[trigger] s.drop_last()[i]).0, s.drop_last()[i].1));
        lemma_canon_conflicts_entries(p, s.drop_last());
        assert(p(s.last().0, s.last().1));
        assert(p(s.last().0, canon_rules(s.last().1)));
        lemma_insert_conflict_entries(
            p,
            canon_conflicts(s.drop_last()),
            s.last().0,
            canon_rules(s.last().1),
        );
    }
}

/// A non-empty raw entry list canonicalizes to a non-empty map.
pub proof fn lemma_canon_conflicts_nonempty(s: Seq<(Seq<char>, Seq<RuleView>)>)
    requires
        s.len() > 0,
    ensures
        canon_conflicts(s).len() > 0,
{
    lemma_insert_conflict_nonempty(
        canon_conflicts(s.drop_last()),
        s.last().0,
        canon_rules(s.last().1),
    );
}

proof fn lemma_insert_conflict_nonempty(
    m: Seq<(Seq<char>, Seq<RuleView>)>,
    k: Seq<char>,
    rules: Seq<RuleView>,
)
    ensures
        insert_conflict(m, k, rules).len() > 0,
    decreases m.len(),
{
    if m.len() > 0 {
        let c = str_cmp(k, m[0].0);
        if c > 0 {
            lemma_insert_conflict_nonempty(m.drop_first(), k, rules);
        }
    }
}

/// Merging with a satisfiable verdict changes nothing: the merge operator
/// has `Ok` as left and right identity.
pub proof fn lemma_merge_ok_identity(v: SolverOutputView)
    ensures
        spec_merge(SolverOutputView::Sat, v) == v,
        spec_merge(v, SolverOutputView::Sat) == v,
{
}

/// A solver engine: turns an Entity Map into a verdict.
pub trait Solver {
    fn solve(&self, map: &crate::solver::map::EntityMap) -> SolverOutput;

    fn set_envs(&mut self, envs: Vec<crate::model::env::Env>);
}

/// The registered engines.
pub enum SolverKind {
    Smt(crate::solver::smt::SmtSolver),
    Ring(crate::solver::ring::RingSolver),
    Unknown(crate::solver::unknown::UnknownSolver),
}

/// A named engine instance.
pub struct SolverImpl {
    pub name: String,
    pub kind: SolverKind,
}

impl SolverImpl {
    /// Runs the engine on the map; the guarantee depends on the engine.
    pub fn solve(&self, map: &crate::solver::map::EntityMap) -> (r: SolverOutput)
        ensures
            match self.kind {
                SolverKind::Smt(s) => (s.envs is None ==> crate::solver::smt::plain_faithful(
                    map@,
                    r@,
                )) && (s.envs is Some ==> crate::solver::smt::env_sound(
                    map@,
                    s.envs->Some_0@,
                    r@,
                )),
                SolverKind::Ring(_) => crate::solver::ring::ring_sound(map@, r@),
                SolverKind::Unknown(_) => r@ == crate::solver::unknown::unknown_verdict(map@),
            },
    {
        match &self.kind {
            SolverKind::Smt(s) => s.solve(map),
            SolverKind::Ring(s) => s.solve(map),
            SolverKind::Unknown(s) => s.solve(map),
        }
    }

    /// Installs exactly the given environments on the boolean-constraint
    /// engine; the other engines ignore them and stay unchanged.
    pub fn set_envs(&mut self, envs: Vec<crate::model::env::Env>)
        ensures
            old(self).kind is Smt ==> final(self).kind is Smt && final(self).kind->Smt_0.envs
                == Some(envs) && final(self).name == old(self).name,
            !(old(self).kind is Smt) ==> *final(self) == *old(self),
    {
        match &mut self.kind {
            SolverKind::Smt(s) => {
                s.set_envs(envs);
            },
            SolverKind::Ring(_) => {},
            SolverKind::Unknown(_) => {},
        }
    }
}

/// Looks an engine up by its registered name; the boolean-constraint engine
/// is registered as "z3".
pub fn get_solver(name: &str) -> (r: Result<SolverImpl, SolverError>)
    ensures
        name@ == "z3"@ ==> r is Ok && r->Ok_0.kind is Smt && r->Ok_0.kind->Smt_0.envs is None,
        name@ == "ring"@ ==> r is Ok && r->Ok_0.kind is Ring,
        name@ == "unknown"@ ==> r is Ok && r->Ok_0.kind is Unknown,
{
    proof {
        reveal_strlit("z3");
        reveal_strlit("ring");
        reveal_strlit("unknown");
        assert("z3"@.len() == 2);
        assert("ring"@.len() == 4);
        assert("unknown"@.len() == 7);
    }
    if crate::order::eq_str(name, "z3") {
        Ok(
            SolverImpl {
                name: name.to_owned(),
                kind: SolverKind::Smt(crate::solver::smt::SmtSolver::new()),
            },
        )
    } else if crate::order::eq_str(name, "ring") {
        Ok(
            SolverImpl {
                name: name.to_owned(),
                kind: SolverKind::Ring(crate::solver::ring::RingSolver::new()),
            },
        )
    } else if crate::order::eq_str(name, "unknown") {
        Ok(
            SolverImpl {
                name: name.to_owned(),
                kind: SolverKind::Unknown(crate::solver::unknown::UnknownSolver::new()),
            },
        )
    } else {
        Err(SolverError::UnknownSolver(name.to_owned()))
    }
}

impl Solver for crate::solver::smt::SmtSolver {
    fn solve(&self, map: &crate::solver::map::EntityMap) -> SolverOutput {
        crate::solver::smt::SmtSolver::solve(self, map)
    }

    fn set_envs(&mut self, envs: Vec<crate::model::env::Env>) {
        crate::solver::smt::SmtSolver::set_envs(self, envs);
    }
}

impl Solver for crate::solver::ring::RingSolver {
    fn solve(&self, map: &crate::solver::map::EntityMap) -> SolverOutput {
        crate::solver::ring::RingSolver::solve(self, map)
    }

    fn set_envs(&mut self, envs: Vec<crate::model::env::Env>) {
    }
}

impl Solver for crate::solver::unknown::UnknownSolver {
    fn solve(&self, map: &crate::solver::map::EntityMap) -> SolverOutput {
        crate::solver::unknown::UnknownSolver::solve(self, map)
    }

    fn set_envs(&mut self, envs: Vec<crate::model::env::Env>) {
    }
}

/// An error of the engine registry: the requested engine is not known.
#[derive(Debug, PartialEq, Eq)]
pub enum SolverError {
    UnknownSolver(String),
}

impl SolverError {
    /// A readable description of the error.
    pub fn message(&self) -> (r: String)
        ensures
            match self {
                SolverError::UnknownSolver(n) => r@ == "unknown solver: "@ + n@,
            },
    {
        match self {
            SolverError::UnknownSolver(n) => {
                let mut s = String::new();
                s.append("unknown solver: ");
                s.append(n.as_str());
                proof {
                    assert(s@ =~= "unknown solver: "@ + n@);
                }
                s
            },
        }
    }
}

} // verus!
