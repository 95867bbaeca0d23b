//! A complete boolean satisfiability checker over CNF formulas.
//!
//! Variables are indices below a bound `n`; an assignment is a `Vec<bool>` of
//! length `n`. The checker either returns a satisfying assignment or
//! establishes that no assignment of length `n` satisfies the formula.

use vstd::prelude::*;

verus! {

/// A literal: a variable index paired with its polarity (`true` = positive).
pub type Lit = (usize, bool);

/// A clause is a disjunction of literals; a formula a conjunction of clauses.
pub open spec fn lit_sat(asn: Seq<bool>, l: Lit) -> bool {
    if l.1 {
        asn[l.0 as int]
    } else {
        !asn[l.0 as int]
    }
}

pub open spec fn clause_sat(asn: Seq<bool>, c: Seq<Lit>) -> bool {
    exists|i: int| 0 <= i < c.len() && lit_sat(asn, c[i])
}

pub open spec fn formula_sat(asn: Seq<bool>, f: Seq<Seq<Lit>>) -> bool {
    forall|i: int| 0 <= i < f.len() ==> clause_sat(asn, #[trigger] f[i])
}

/// Every variable of the clause lies below `n`.
pub open spec fn clause_wf(c: Seq<Lit>, n: int) -> bool {
    forall|i: int| 0 <= i < c.len() ==> (#[trigger] c[i]).0 < n
}

pub open spec fn formula_wf(f: Seq<Seq<Lit>>, n: int) -> bool {
    forall|i: int| 0 <= i < f.len() ==> clause_wf(#[trigger] f[i], n)
}

/// Two assignments agree on all variables below `k`.
pub open spec fn agrees(a: Seq<bool>, b: Seq<bool>, k: int) -> bool {
    forall|i: int| 0 <= i < k ==> a[i] == b[i]
}

/// Every literal of the clause is decided below `fixed` and false.
pub open spec fn clause_falsified(asn: Seq<bool>, c: Seq<Lit>, fixed: int) -> bool {
    forall|i: int| 0 <= i < c.len() ==> (#[trigger] c[i]).0 < fixed && !lit_sat(asn, c[i])
}

proof fn lemma_falsified_stays(asn: Seq<bool>, ext: Seq<bool>, c: Seq<Lit>, fixed: int)
    requires
        clause_falsified(asn, c, fixed),
        agrees(ext, asn, fixed),
        fixed <= asn.len(),
        fixed <= ext.len(),
    ensures
        !clause_sat(ext, c),
{
    assert forall|i: int| 0 <= i < c.len() implies !lit_sat(ext, c[i]) by {
        assert(c[i].0 < fixed && !lit_sat(asn, c[i]));
        assert(ext[c[i].0 as int] == asn[c[i].0 as int]);
    }
}

fn eval_clause(asn: &Vec<bool>, c: &Vec<Lit>) -> (r: bool)
    requires
        clause_wf(c@, asn@.len() as int),
    ensures
        r == clause_sat(asn@, c@),
{
    let mut i: usize = 0;
    while i < c.len()
        invariant
            0 <= i <= c@.len(),
            clause_wf(c@, asn@.len() as int),
            forall|j: int| 0 <= j < i ==> !lit_sat(asn@, c@[j]),
        decreases c@.len() - i,
    {
        let (v, pos) = c[i];
        let val = asn[v];
        if val == pos {
            assert(lit_sat(asn@, c@[i as int]));
            return true;
        }
        i = i + 1;
    }
    false
}

fn eval_formula(asn: &Vec<bool>, f: &Vec<Vec<Lit>>) -> (r: bool)
    requires
        formula_wf(f.deep_view(), asn@.len() as int),
    ensures
        r == formula_sat(asn@, f.deep_view()),
{
    let mut i: usize = 0;
    while i < f.len()
        invariant
            0 <= i <= f@.len(),
            f.deep_view().len() == f@.len(),
            formula_wf(f.deep_view(), asn@.len() as int),
            forall|j: int| 0 <= j < i ==> clause_sat(asn@, #[trigger] f.deep_view()[j]),
        decreases f@.len() - i,
    {
        assert(f.deep_view()[i as int] == f@[i as int]@);
        if !eval_clause(asn, &f[i]) {
            return false;
        }
        i = i + 1;
    }
    true
}

/// True only when some clause of the formula is already falsified by the
/// variables decided below `fixed`.
fn find_falsified(asn: &Vec<bool>, f: &Vec<Vec<Lit>>, fixed: usize) -> (r: bool)
    requires
        fixed <= asn@.len(),
    ensures
        r ==> exists|i: int|
            0 <= i < f.deep_view().len() && clause_falsified(
                asn@,
                #[trigger] f.deep_view()[i],
                fixed as int,
            ),
{
    let mut i: usize = 0;
    while i < f.len()
        invariant
            0 <= i <= f@.len(),
            f.deep_view().len() == f@.len(),
            fixed <= asn@.len(),
        decreases f@.len() - i,
    {
        let c = &f[i];
        let mut j: usize = 0;
        let mut all_false = true;
        while j < c.len()
            invariant
                0 <= j <= c@.len(),
                fixed <= asn@.len(),
                all_false ==> forall|k: int|
                    0 <= k < j ==> (#[trigger] c@[k]).0 < fixed && !lit_sat(asn@, c@[k]),
            decreases c@.len() - j,
        {
            let (v, pos) = c[j];
            if v >= fixed || asn[v] == pos {
                all_false = false;
            }
            j = j + 1;
        }
        if all_false {
            assert(f.deep_view()[i as int] == f@[i as int]@);
            assert(clause_falsified(asn@, f.deep_view()[i as int], fixed as int));
            return true;
        }
        i = i + 1;
    }
    false
}

/// Backtracking search over the variables at and above `fixed`.
fn search(f: &Vec<Vec<Lit>>, asn: &mut Vec<bool>, fixed: usize) -> (r: bool)
    requires
        formula_wf(f.deep_view(), old(asn)@.len() as int),
        fixed <= old(asn)@.len(),
    ensures
        final(asn)@.len() == old(asn)@.len(),
        agrees(final(asn)@, old(asn)@, fixed as int),
        r ==> formula_sat(final(asn)@, f.deep_view()),
        !r ==> forall|ext: Seq<bool>|
            ext.len() == old(asn)@.len() && agrees(ext, old(asn)@, fixed as int) ==> !formula_sat(
                ext,
                f.deep_view(),
            ),
    decreases old(asn)@.len() - fixed,
{
    let n = asn.len();
    if find_falsified(asn, f, fixed) {
        proof {
            let i = choose|i: int|
                0 <= i < f.deep_view().len() && clause_falsified(
                    asn@,
                    #[trigger] f.deep_view()[i],
                    fixed as int,
                );
            assert forall|ext: Seq<bool>|
                ext.len() == asn@.len() && agrees(ext, asn@, fixed as int) implies !formula_sat(
                ext,
                f.deep_view(),
            ) by {
                lemma_falsified_stays(asn@, ext, f.deep_view()[i], fixed as int);
            }
        }
        return false;
    }
    if fixed == n {
        let r = eval_formula(asn, f);
        proof {
            if !r {
                assert forall|ext: Seq<bool>|
                    ext.len() == asn@.len() && agrees(ext, asn@, fixed as int) implies !formula_sat(
                    ext,
                    f.deep_view(),
                ) by {
                    assert(ext =~= asn@);
                }
            }
        }
        return r;
    }
    let ghost start = asn@;
    asn.set(fixed, true);
    let ghost asn_t = asn@;
    if search(f, asn, fixed + 1) {
        return true;
    }
    let ghost after_t = asn@;
    asn.set(fixed, false);
    let ghost asn_f = asn@;
    if search(f, asn, fixed + 1) {
        return true;
    }
    proof {
        assert forall|ext: Seq<bool>|
            ext.len() == start.len() && agrees(ext, start, fixed as int) implies !formula_sat(
            ext,
            f.deep_view(),
        ) by {
            if ext[fixed as int] {
                assert(agrees(ext, asn_t, fixed as int + 1));
            } else {
                assert(agrees(after_t, asn_t, fixed as int + 1));
                assert(agrees(ext, asn_f, fixed as int + 1));
            }
        }
    }
    false
}

/// Decides satisfiability of a CNF formula over `n` variables.
///
/// Returns a satisfying assignment, or `None` when no assignment of length
/// `n` satisfies every clause.
pub fn check_formula(n: usize, f: &Vec<Vec<Lit>>) -> (r: Option<Vec<bool>>)
    requires
        formula_wf(f.deep_view(), n as int),
    ensures
        match r {
            Some(asn) => asn@.len() == n && formula_sat(asn@, f.deep_view()),
            None => forall|ext: Seq<bool>| ext.len() == n ==> !formula_sat(ext, f.deep_view()),
        },
{
    let mut asn: Vec<bool> = Vec::new();
    let mut i: usize = 0;
    while i < n
        invariant
            asn@.len() == i,
            0 <= i <= n,
        decreases n - i,
    {
        asn.push(false);
        i = i + 1;
    }
    if search(f, &mut asn, 0) {
        Some(asn)
    } else {
        None
    }
}

} // verus!
