//! Environments: named sets of labels that must be co-selected when the
//! solver probes a name under environment assumptions.

use vstd::prelude::*;

verus! {

/// A named environment: the labels it pins, and the names of other
/// environments that declared the same label set.
#[derive(Debug, PartialEq, Eq)]
pub struct Env {
    pub name: String,
    pub labels: Vec<String>,
    pub duplicate_names: Vec<String>,
}

#[verifier::ext_equal]
pub struct EnvView {
    pub name: Seq<char>,
    pub labels: Seq<Seq<char>>,
    pub duplicate_names: Seq<Seq<char>>,
}

/// The views of a vector of strings.
pub open spec fn dv_strs(s: Seq<String>) -> Seq<Seq<char>> {
    Seq::new(s.len(), |i: int| s[i]@)
}

impl View for Env {
    type V = EnvView;

    open spec fn view(&self) -> EnvView {
        EnvView {
            name: self.name@,
            labels: dv_strs(self.labels@),
            duplicate_names: dv_strs(self.duplicate_names@),
        }
    }
}

impl DeepView for Env {
    type V = EnvView;

    open spec fn deep_view(&self) -> EnvView {
        self.view()
    }
}

impl Clone for Env {
    fn clone(&self) -> (r: Self)
        ensures
            r@ == self@,
    {
        let r = Env {
            name: self.name.clone(),
            labels: clone_strings(&self.labels),
            duplicate_names: clone_strings(&self.duplicate_names),
        };
        proof {
            assert(r@ =~= self@);
        }
        r
    }
}

/// Copies a string vector element by element.
pub fn clone_strings(v: &Vec<String>) -> (r: Vec<String>)
    ensures
        dv_strs(r@) == dv_strs(v@),
{
    let mut out: Vec<String> = Vec::new();
    let mut i: usize = 0;
    proof {
        assert(dv_strs(out@) =~= dv_strs(v@).take(0));
    }
    while i < v.len()
        invariant
            0 <= i <= v@.len(),
            out@.len() == i,
            dv_strs(out@) == dv_strs(v@).take(i as int),
        decreases v@.len() - i,
    {
        out.push(v[i].clone());
        proof {
            assert(dv_strs(v@)[i as int] == v@[i as int]@);
            assert(dv_strs(out@) =~= dv_strs(v@).take(i as int + 1));
        }
        i = i + 1;
    }
    proof {
        assert(dv_strs(v@).take(i as int) =~= dv_strs(v@));
    }
    out
}

/// An error of the environment parser.
#[derive(Debug, PartialEq, Eq)]
pub enum EnvParseError {
    EmptyData,
}

} // verus!
