//! The rule model: require/exclude relations between named entities, with
//! their originating source location and free-form metadata.
//!
//! Multi-rule target sets and metadata maps are kept as sorted, duplicate-free
//! vectors so that every value has one canonical representation and solver
//! output is deterministic.

use vstd::prelude::*;

use crate::model::entity::EntityName;
use crate::numtext::{parse_usize, spec_parse_usize};
use crate::order::{
    cmp_str, cmp_usize, eq_str, int_cmp, kv_cmp, lemma_kv_cmp_zero, lemma_names_cmp_zero,
    lemma_opt_str_cmp_zero, lemma_str_cmp_zero, lex2, names_cmp, opt_int_cmp, opt_str_cmp,
    str_cmp,
};

verus! {


/// The name sequences of a vector of entity names.
pub open spec fn dv_names(s: Seq<EntityName>) -> Seq<Seq<char>> {
    Seq::new(s.len(), |i: int| s[i]@)
}

/// The views of a vector of rules.
pub open spec fn dv_rules(s: Seq<EntityRule>) -> Seq<RuleView> {
    Seq::new(s.len(), |i: int| s[i]@)
}

/// The views of a key/value pair vector.
pub open spec fn dv_kv(s: Seq<(String, String)>) -> Seq<(Seq<char>, Seq<char>)> {
    Seq::new(s.len(), |i: int| (s[i].0@, s[i].1@))
}

/// The view of an optional string.
pub open spec fn dv_opt_str(o: Option<String>) -> Option<Seq<char>> {
    match o {
        Some(s) => Some(s@),
        None => None,
    }
}

/// Whether a rule demands or forbids co-selection of its targets.
#[derive(Debug, Clone, Copy, PartialEq, Eq, Structural)]
pub enum EntityRuleType {
    Require,
    Exclude,
}

impl EntityRuleType {
    pub fn as_str(&self) -> (r: &'static str)
        ensures
            r@ == spec_rule_type_str(*self),
    {
        match self {
            EntityRuleType::Require => "require",
            EntityRuleType::Exclude => "exclude",
        }
    }
}

pub open spec fn spec_rule_type_str(t: EntityRuleType) -> Seq<char> {
    match t {
        EntityRuleType::Require => "require"@,
        EntityRuleType::Exclude => "exclude"@,
    }
}

/// Where a rule was written: a file path plus line, or unknown.
#[derive(Debug, PartialEq, Eq)]
pub enum EntityRuleSource {
    File(String, usize),
    Unknown,
}

#[verifier::ext_equal]
pub enum RuleSourceView {
    File(Seq<char>, usize),
    Unknown,
}

impl View for EntityRuleSource {
    type V = RuleSourceView;

    open spec fn view(&self) -> RuleSourceView {
        match self {
            EntityRuleSource::File(p, l) => RuleSourceView::File(p@, *l),
            EntityRuleSource::Unknown => RuleSourceView::Unknown,
        }
    }
}

impl DeepView for EntityRuleSource {
    type V = RuleSourceView;

    open spec fn deep_view(&self) -> RuleSourceView {
        self.view()
    }
}

impl Clone for EntityRuleSource {
    fn clone(&self) -> (r: Self)
        ensures
            r@ == self@,
    {
        match self {
            EntityRuleSource::File(p, l) => EntityRuleSource::File(p.clone(), *l),
            EntityRuleSource::Unknown => EntityRuleSource::Unknown,
        }
    }
}

impl EntityRuleSource {
    pub fn new(path: &str, line: usize) -> (r: Self)
        ensures
            r@ == RuleSourceView::File(path@, line),
    {
        EntityRuleSource::File(path.to_owned(), line)
    }

    pub fn file(&self) -> (r: Option<&str>)
        ensures
            match self@ {
                RuleSourceView::File(p, _) => r is Some && r->0@ == p,
                RuleSourceView::Unknown => r is None,
            },
    {
        match self {
            EntityRuleSource::File(p, _) => Some(p.as_str()),
            EntityRuleSource::Unknown => None,
        }
    }

    pub fn line(&self) -> (r: Option<usize>)
        ensures
            match self@ {
                RuleSourceView::File(_, l) => r == Some(l),
                RuleSourceView::Unknown => r is None,
            },
    {
        match self {
            EntityRuleSource::File(_, l) => Some(*l),
            EntityRuleSource::Unknown => None,
        }
    }
}

impl Default for EntityRuleSource {
    fn default() -> (r: Self)
        ensures
            r@ == RuleSourceView::Unknown,
    {
        EntityRuleSource::Unknown
    }
}

pub open spec fn rule_source_cmp(a: RuleSourceView, b: RuleSourceView) -> int {
    match (a, b) {
        (RuleSourceView::File(pa, la), RuleSourceView::File(pb, lb)) => lex2(
            str_cmp(pa, pb),
            int_cmp(la as int, lb as int),
        ),
        (RuleSourceView::File(_, _), RuleSourceView::Unknown) => -1,
        (RuleSourceView::Unknown, RuleSourceView::File(_, _)) => 1,
        (RuleSourceView::Unknown, RuleSourceView::Unknown) => 0,
    }
}

pub proof fn lemma_rule_source_cmp_zero(a: RuleSourceView, b: RuleSourceView)
    ensures
        (rule_source_cmp(a, b) == 0) <==> (a =~= b),
{
    if a is File && b is File {
        lemma_str_cmp_zero(a->File_0, b->File_0);
    }
}

pub fn cmp_rule_source(a: &EntityRuleSource, b: &EntityRuleSource) -> (r: i8)
    ensures
        r as int == rule_source_cmp(a@, b@),
{
    match (a, b) {
        (EntityRuleSource::File(pa, la), EntityRuleSource::File(pb, lb)) => {
            let c = cmp_str(pa.as_str(), pb.as_str());
            if c != 0 {
                c
            } else {
                cmp_usize(*la, *lb)
            }
        },
        (EntityRuleSource::File(_, _), EntityRuleSource::Unknown) => -1,
        (EntityRuleSource::Unknown, EntityRuleSource::File(_, _)) => 1,
        (EntityRuleSource::Unknown, EntityRuleSource::Unknown) => 0,
    }
}

// ------------------------------------------------------------------
// Key/value metadata maps as sorted association vectors.
// ------------------------------------------------------------------
/// Value bound to `k`, if any.
pub open spec fn kv_get(s: Seq<(Seq<char>, Seq<char>)>, k: Seq<char>) -> Option<Seq<char>>
    decreases s.len(),
{
    if s.len() == 0 {
        None
    } else if s[0].0 == k {
        Some(s[0].1)
    } else {
        kv_get(s.drop_first(), k)
    }
}

/// Binds `k` to `v`, replacing an existing binding, keeping keys sorted.
pub open spec fn insert_kv(
    s: Seq<(Seq<char>, Seq<char>)>,
    k: Seq<char>,
    v: Seq<char>,
) -> Seq<(Seq<char>, Seq<char>)>
    decreases s.len(),
{
    if s.len() == 0 {
        seq![(k, v)]
    } else {
        let c = str_cmp(k, s[0].0);
        if c == 0 {
            seq![(k, v)] + s.drop_first()
        } else if c < 0 {
            seq![(k, v)] + s
        } else {
            seq![s[0]] + insert_kv(s.drop_first(), k, v)
        }
    }
}

/// Canonical form of a pair list: bindings applied left to right.
pub open spec fn canon_kv(s: Seq<(Seq<char>, Seq<char>)>) -> Seq<(Seq<char>, Seq<char>)>
    decreases s.len(),
{
    if s.len() == 0 {
        Seq::empty()
    } else {
        insert_kv(canon_kv(s.drop_last()), s.last().0, s.last().1)
    }
}

proof fn lemma_insert_kv_skip(s: Seq<(Seq<char>, Seq<char>)>, k: Seq<char>, v: Seq<char>, i: int)
    requires
        0 <= i <= s.len(),
        forall|j: int| 0 <= j < i ==> str_cmp(k, #[trigger] s[j].0) > 0,
    ensures
        insert_kv(s, k, v) == s.take(i) + insert_kv(s.skip(i), k, v),
    decreases i,
{
    if i == 0 {
        assert(s.skip(0) =~= s);
        assert(s.take(0) + insert_kv(s, k, v) =~= insert_kv(s, k, v));
    } else {
        lemma_insert_kv_skip(s.drop_first(), k, v, i - 1);
        assert(forall|j: int|
            0 <= j < i - 1 ==> str_cmp(k, #[trigger] s.drop_first()[j].0) > 0) by {
            assert(forall|j: int|
                0 <= j < i - 1 ==> s.drop_first()[j] == #[trigger] s[j + 1]);
        }
        assert(str_cmp(k, s[0].0) > 0);
        assert(insert_kv(s, k, v) == seq![s[0]] + insert_kv(s.drop_first(), k, v));
        assert(s.drop_first().take(i - 1) =~= s.take(i).drop_first());
        assert(s.drop_first().skip(i - 1) =~= s.skip(i));
        assert(seq![s[0]] + (s.drop_first().take(i - 1) + insert_kv(s.drop_first().skip(i - 1), k, v))
            =~= s.take(i) + insert_kv(s.skip(i), k, v));
    }
}

/// Inserts a binding into a canonical pair vector.
pub fn insert_kv_vec(m: &mut Vec<(String, String)>, k: String, v: String)
    ensures
        dv_kv(final(m)@) == insert_kv(dv_kv(old(m)@), k@, v@),
{
    let ghost orig = dv_kv(m@);
    let n = m.len();
    let mut i: usize = 0;
    let mut replace = false;
    while i < n
        invariant_except_break
            !replace,
        invariant
            0 <= i <= n,
            n == m@.len(),
            orig == dv_kv(m@),
            orig.len() == n,
            forall|j: int| 0 <= j < i ==> str_cmp(k@, #[trigger] orig[j].0) > 0,
        ensures
            0 <= i <= n,
            n == m@.len(),
            orig == dv_kv(m@),
            forall|j: int| 0 <= j < i ==> str_cmp(k@, #[trigger] orig[j].0) > 0,
            i < n ==> str_cmp(k@, orig[i as int].0) <= 0,
            replace <==> (i < n && str_cmp(k@, orig[i as int].0) == 0),
        decreases n - i,
    {
        proof {
            assert(orig[i as int] == (m@[i as int].0@, m@[i as int].1@));
        }
        let c = cmp_str(k.as_str(), m[i].0.as_str());
        if c == 0 {
            replace = true;
            break ;
        }
        if c < 0 {
            break ;
        }
        i = i + 1;
    }
    proof {
        lemma_insert_kv_skip(orig, k@, v@, i as int);
        if i < n {
            assert(orig.skip(i as int)[0] == orig[i as int]);
        }
    }
    if replace {
        let _ = m.remove(i);
        m.insert(i, (k, v));
        proof {
            assert(insert_kv(orig.skip(i as int), k@, v@) == seq![(k@, v@)] + orig.skip(
                i as int,
            ).drop_first());
            assert(dv_kv(m@) =~= orig.take(i as int) + (seq![(k@, v@)] + orig.skip(
                i as int,
            ).drop_first()));
        }
    } else if i < n {
        proof {
            assert(insert_kv(orig.skip(i as int), k@, v@) == seq![(k@, v@)] + orig.skip(i as int));
        }
        m.insert(i, (k, v));
        proof {
            assert(dv_kv(m@) =~= orig.take(i as int) + (seq![(k@, v@)] + orig.skip(i as int)));
        }
    } else {
        proof {
            assert(orig.skip(i as int) =~= Seq::empty());
            assert(orig.take(i as int) =~= orig);
        }
        m.push((k, v));
        proof {
            assert(dv_kv(m@) =~= orig + insert_kv(Seq::empty(), k@, v@));
        }
    }
}

/// Rebuilds a pair list in canonical form.
pub fn canon_kv_vec(m: Vec<(String, String)>) -> (r: Vec<(String, String)>)
    ensures
        dv_kv(r@) == canon_kv(dv_kv(m@)),
{
    let ghost orig = dv_kv(m@);
    let total = m.len();
    let mut out: Vec<(String, String)> = Vec::new();
    let mut rest = m;
    proof {
        assert(orig.take(0) =~= Seq::empty());
        assert(dv_kv(out@) =~= canon_kv(orig.take(0)));
        assert(dv_kv(rest@) =~= orig.skip(0));
    }
    let mut i: usize = 0;
    while rest.len() > 0
        invariant
            0 <= i <= total,
            total == orig.len(),
            i + rest@.len() == total,
            dv_kv(rest@) == orig.skip(i as int),
            dv_kv(out@) == canon_kv(orig.take(i as int)),
        decreases rest@.len(),
    {
        let ghost prev = dv_kv(rest@);
        let p = rest.remove(0);
        proof {
            assert(prev[0] == orig[i as int]);
            assert(prev[0] == (p.0@, p.1@));
            assert(dv_kv(rest@) =~= prev.drop_first());
            assert(prev.drop_first() =~= orig.skip(i as int + 1));
            assert(orig.take(i as int + 1).drop_last() =~= orig.take(i as int));
            assert(orig.take(i as int + 1).last() == orig[i as int]);
        }
        insert_kv_vec(&mut out, p.0, p.1);
        i = i + 1;
    }
    proof {
        assert(orig.take(i as int) =~= orig);
    }
    out
}

/// Looks a key up in a canonical pair vector.
pub fn kv_get_vec<'a>(m: &'a Vec<(String, String)>, k: &str) -> (r: Option<&'a str>)
    ensures
        match r {
            Some(v) => kv_get(dv_kv(m@), k@) == Some(v@),
            None => kv_get(dv_kv(m@), k@) is None,
        },
{
    let ghost whole = dv_kv(m@);
    let mut i: usize = 0;
    proof {
        assert(whole.skip(0) =~= whole);
    }
    loop
        invariant
            0 <= i <= m@.len(),
            whole.len() == m@.len(),
            whole == dv_kv(m@),
            kv_get(whole, k@) == kv_get(whole.skip(i as int), k@),
        decreases m@.len() - i,
    {
        if i == m.len() {
            proof {
                assert(whole.skip(i as int) =~= Seq::empty());
            }
            return None;
        }
        proof {
            assert(whole.skip(i as int)[0] == whole[i as int]);
            assert(whole[i as int] == (m@[i as int].0@, m@[i as int].1@));
        }
        if eq_str(m[i].0.as_str(), k) {
            return Some(m[i].1.as_str());
        }
        proof {
            assert(whole.skip(i as int).drop_first() =~= whole.skip(i as int + 1));
        }
        i = i + 1;
    }
}

// ------------------------------------------------------------------
// Metadata
// ------------------------------------------------------------------
/// Optional origin data and a free-form key/value map attached to a rule.
#[derive(Debug, PartialEq, Eq)]
pub struct EntityRuleMetadata {
    pub file: Option<String>,
    pub line: Option<usize>,
    pub metadata: Option<Vec<(String, String)>>,
}

#[verifier::ext_equal]
pub struct MetadataView {
    pub file: Option<Seq<char>>,
    pub line: Option<usize>,
    pub kv: Option<Seq<(Seq<char>, Seq<char>)>>,
}

impl View for EntityRuleMetadata {
    type V = MetadataView;

    open spec fn view(&self) -> MetadataView {
        MetadataView {
            file: dv_opt_str(self.file),
            line: self.line,
            kv: match self.metadata {
                Some(m) => Some(dv_kv(m@)),
                None => None,
            },
        }
    }
}

impl DeepView for EntityRuleMetadata {
    type V = MetadataView;

    open spec fn deep_view(&self) -> MetadataView {
        self.view()
    }
}

impl Clone for EntityRuleMetadata {
    fn clone(&self) -> (r: Self)
        ensures
            r@ == self@,
    {
        let file = match &self.file {
            Some(f) => Some(f.clone()),
            None => None,
        };
        let line = match &self.line {
            Some(l) => Some(*l),
            None => None,
        };
        let metadata = match &self.metadata {
            Some(m) => Some(clone_kv_vec(m)),
            None => None,
        };
        let r = EntityRuleMetadata { file, line, metadata };
        proof {
            assert(r@ =~= self@);
        }
        r
    }
}

/// Copies a pair vector element by element.
pub fn clone_kv_vec(m: &Vec<(String, String)>) -> (r: Vec<(String, String)>)
    ensures
        dv_kv(r@) == dv_kv(m@),
{
    let mut out: Vec<(String, String)> = Vec::new();
    let mut i: usize = 0;
    proof {
        assert(dv_kv(out@) =~= dv_kv(m@).take(0));
    }
    while i < m.len()
        invariant
            0 <= i <= m@.len(),
            out@.len() == i,
            dv_kv(out@) == dv_kv(m@).take(i as int),
        decreases m@.len() - i,
    {
        let k = m[i].0.clone();
        let v = m[i].1.clone();
        out.push((k, v));
        proof {
            assert(dv_kv(m@)[i as int] == (m@[i as int].0@, m@[i as int].1@));
            assert(dv_kv(out@) =~= dv_kv(m@).take(i as int + 1));
        }
        i = i + 1;
    }
    proof {
        assert(dv_kv(m@).take(i as int) =~= dv_kv(m@));
    }
    out
}

pub open spec fn opt_kv_cmp(
    a: Option<Seq<(Seq<char>, Seq<char>)>>,
    b: Option<Seq<(Seq<char>, Seq<char>)>>,
) -> int {
    match (a, b) {
        (Option::None, Option::None) => 0,
        (Option::None, Option::Some(_)) => -1,
        (Option::Some(_), Option::None) => 1,
        (Option::Some(x), Option::Some(y)) => kv_cmp(x, y),
    }
}

pub open spec fn meta_cmp(a: MetadataView, b: MetadataView) -> int {
    lex2(
        opt_str_cmp(a.file, b.file),
        lex2(
            opt_int_cmp(
                match a.line {
                    Some(l) => Some(l as int),
                    None => None,
                },
                match b.line {
                    Some(l) => Some(l as int),
                    None => None,
                },
            ),
            opt_kv_cmp(a.kv, b.kv),
        ),
    )
}

pub proof fn lemma_meta_cmp_zero(a: MetadataView, b: MetadataView)
    ensures
        (meta_cmp(a, b) == 0) <==> (a =~= b),
{
    lemma_opt_str_cmp_zero(a.file, b.file);
    if a.kv is Some && b.kv is Some {
        lemma_kv_cmp_zero(a.kv->0, b.kv->0);
    }
}

pub fn cmp_metadata(a: &EntityRuleMetadata, b: &EntityRuleMetadata) -> (r: i8)
    ensures
        r as int == meta_cmp(a@, b@),
{
    let c = match (&a.file, &b.file) {
        (Option::None, Option::None) => 0,
        (Option::None, Option::Some(_)) => -1,
        (Option::Some(_), Option::None) => 1,
        (Option::Some(x), Option::Some(y)) => cmp_str(x.as_str(), y.as_str()),
    };
    if c != 0 {
        return c;
    }
    let c = match (&a.line, &b.line) {
        (Option::None, Option::None) => 0,
        (Option::None, Option::Some(_)) => -1,
        (Option::Some(_), Option::None) => 1,
        (Option::Some(x), Option::Some(y)) => cmp_usize(*x, *y),
    };
    if c != 0 {
        return c;
    }
    match (&a.metadata, &b.metadata) {
        (Option::None, Option::None) => 0,
        (Option::None, Option::Some(_)) => -1,
        (Option::Some(_), Option::None) => 1,
        (Option::Some(x), Option::Some(y)) => cmp_kv_vec(x, y),
    }
}

pub fn cmp_kv_vec(a: &Vec<(String, String)>, b: &Vec<(String, String)>) -> (r: i8)
    ensures
        r as int == kv_cmp(dv_kv(a@), dv_kv(b@)),
{
    let ghost va = dv_kv(a@);
    let ghost vb = dv_kv(b@);
    let mut i: usize = 0;
    proof {
        assert(va.skip(0) =~= va);
        assert(vb.skip(0) =~= vb);
    }
    loop
        invariant
            0 <= i <= a@.len(),
            0 <= i <= b@.len(),
            va == dv_kv(a@),
            vb == dv_kv(b@),
            va.len() == a@.len(),
            vb.len() == b@.len(),
            kv_cmp(va, vb) == kv_cmp(va.skip(i as int), vb.skip(i as int)),
        decreases a@.len() - i,
    {
        if i == a.len() && i == b.len() {
            proof {
                assert(va.skip(i as int).len() == 0 && vb.skip(i as int).len() == 0);
            }
            return 0;
        }
        if i == a.len() {
            proof {
                assert(vb.skip(i as int).len() > 0);
            }
            return -1;
        }
        if i == b.len() {
            return 1;
        }
        proof {
            assert(va.skip(i as int)[0] == va[i as int]);
            assert(vb.skip(i as int)[0] == vb[i as int]);
            assert(va[i as int] == (a@[i as int].0@, a@[i as int].1@));
            assert(vb[i as int] == (b@[i as int].0@, b@[i as int].1@));
        }
        let c = cmp_str(a[i].0.as_str(), b[i].0.as_str());
        if c != 0 {
            return c;
        }
        let c = cmp_str(a[i].1.as_str(), b[i].1.as_str());
        if c != 0 {
            proof {
                crate::order::lemma_pair_cmp_zero(va[i as int], vb[i as int]);
            }
            return c;
        }
        proof {
            assert(crate::order::pair_cmp(va.skip(i as int)[0], vb.skip(i as int)[0]) == 0);
            assert(va.skip(i as int).drop_first() =~= va.skip(i as int + 1));
            assert(vb.skip(i as int).drop_first() =~= vb.skip(i as int + 1));
        }
        i = i + 1;
    }
}

impl EntityRuleMetadata {
    /// Builds metadata; the key/value map is stored in canonical form.
    pub fn new(file: Option<String>, line: Option<usize>, metadata: Option<Vec<(String, String)>>)
        -> (r: Self)
        ensures
            r@.file == dv_opt_str(file),
            r@.line == line,
            r@.kv == match metadata {
                Some(m) => Some(canon_kv(dv_kv(m@))),
                None => None::<Seq<(Seq<char>, Seq<char>)>>,
            },
    {
        let metadata = match metadata {
            Some(m) => Some(canon_kv_vec(m)),
            None => None,
        };
        EntityRuleMetadata { file, line, metadata }
    }

    pub fn file(&self) -> (r: Option<&str>)
        ensures
            match self@.file {
                Some(f) => r is Some && r->0@ == f,
                None => r is None,
            },
    {
        match &self.file {
            Some(f) => Some(f.as_str()),
            None => None,
        }
    }

    pub fn line(&self) -> (r: Option<usize>)
        ensures
            r == self@.line,
    {
        match &self.line {
            Some(l) => Some(*l),
            None => None,
        }
    }

    /// The `topology` entry of the map, if any.
    pub fn topology_key(&self) -> (r: Option<&str>)
        ensures
            match spec_meta_get(self@, "topology"@) {
                Some(v) => r is Some && r->0@ == v,
                None => r is None,
            },
    {
        match &self.metadata {
            Some(m) => kv_get_vec(m, "topology"),
            None => None,
        }
    }

    pub fn get_metadata(&self) -> (r: Option<&Vec<(String, String)>>)
        ensures
            match r {
                Some(m) => self@.kv == Some(dv_kv(m@)),
                None => self@.kv is None,
            },
    {
        self.metadata.as_ref()
    }

    /// Adds one binding, replacing an equal key.
    pub fn add_metadata(&mut self, key: String, value: String)
        ensures
            final(self)@.file == old(self)@.file,
            final(self)@.line == old(self)@.line,
            final(self)@.kv == Some(
                insert_kv(
                    match old(self)@.kv {
                        Some(kv) => kv,
                        None => Seq::empty(),
                    },
                    key@,
                    value@,
                ),
            ),
    {
        match &mut self.metadata {
            Some(m) => {
                insert_kv_vec(m, key, value);
            },
            None => {
                let mut m: Vec<(String, String)> = Vec::new();
                insert_kv_vec(&mut m, key, value);
                self.metadata = Some(m);
            },
        }
    }
}

/// The value bound to `key` in the metadata map, if any.
pub open spec fn spec_meta_get(m: MetadataView, key: Seq<char>) -> Option<Seq<char>> {
    match m.kv {
        Some(kv) => kv_get(kv, key),
        None => None,
    }
}

// ------------------------------------------------------------------
// Name sets as sorted vectors.
// ------------------------------------------------------------------
/// Inserts a name keeping the sequence sorted; an equal name is dropped.
pub open spec fn insert_name(s: Seq<Seq<char>>, x: Seq<char>) -> Seq<Seq<char>>
    decreases s.len(),
{
    if s.len() == 0 {
        seq![x]
    } else {
        let c = str_cmp(x, s[0]);
        if c == 0 {
            s
        } else if c < 0 {
            seq![x] + s
        } else {
            seq![s[0]] + insert_name(s.drop_first(), x)
        }
    }
}

/// Canonical (sorted, duplicate-free) form of a name list.
pub open spec fn canon_names(s: Seq<Seq<char>>) -> Seq<Seq<char>>
    decreases s.len(),
{
    if s.len() == 0 {
        Seq::empty()
    } else {
        insert_name(canon_names(s.drop_last()), s.last())
    }
}

/// The name list ascends strictly, so it is sorted and duplicate-free.
pub open spec fn names_strictly_sorted(s: Seq<Seq<char>>) -> bool {
    forall|a: int| 0 <= a < s.len() - 1 ==> str_cmp(#[trigger] s[a], s[a + 1]) < 0
}

/// The rule's target list is in canonical, strictly ascending form; the
/// constructors establish it.
pub open spec fn rule_canonical(r: RuleView) -> bool {
    names_strictly_sorted(r.targets)
}

/// An insertion keeps the head or places the new name in front.
proof fn lemma_insert_name_head(s: Seq<Seq<char>>, x: Seq<char>)
    requires
        s.len() > 0,
    ensures
        insert_name(s, x).len() > 0,
        insert_name(s, x)[0] == x || insert_name(s, x)[0] == s[0],
{
    let c = str_cmp(x, s[0]);
    if c < 0 {
        assert((seq![x] + s)[0] == x);
    } else if c > 0 {
        assert((seq![s[0]] + insert_name(s.drop_first(), x))[0] == s[0]);
    }
}

/// Sorted insertion keeps the list strictly ascending.
proof fn lemma_insert_name_sorted(s: Seq<Seq<char>>, x: Seq<char>)
    requires
        names_strictly_sorted(s),
    ensures
        names_strictly_sorted(insert_name(s, x)),
    decreases s.len(),
{
    if s.len() == 0 {
        assert(insert_name(s, x).len() == 1);
    } else {
        let c = str_cmp(x, s[0]);
        if c == 0 {
        } else if c < 0 {
            let t = seq![x] + s;
            assert forall|a: int| 0 <= a < t.len() - 1 implies str_cmp(#[trigger] t[a], t[a + 1])
                < 0 by {
                if a == 0 {
                    assert(t[0] == x && t[1] == s[0]);
                } else {
                    assert(t[a] == s[a - 1] && t[a + 1] == s[a]);
                }
            }
        } else {
            assert(names_strictly_sorted(s.drop_first())) by {
                assert forall|a: int| 0 <= a < s.drop_first().len() - 1 implies str_cmp(
                    #[trigger] s.drop_first()[a],
                    s.drop_first()[a + 1],
                ) < 0 by {
                    assert(s.drop_first()[a] == s[a + 1]);
                    assert(s.drop_first()[a + 1] == s[a + 2]);
                }
            }
            lemma_insert_name_sorted(s.drop_first(), x);
            let ins = insert_name(s.drop_first(), x);
            let t = seq![s[0]] + ins;
            crate::order::lemma_str_cmp_flip(x, s[0]);
            if s.drop_first().len() == 0 {
                assert(ins =~= seq![x]);
                assert(str_cmp(s[0], x) < 0);
            } else {
                lemma_insert_name_head(s.drop_first(), x);
                if ins[0] == x {
                    assert(str_cmp(s[0], x) < 0);
                } else {
                    assert(ins[0] == s.drop_first()[0]);
                    assert(s.drop_first()[0] == s[1]);
                    assert(str_cmp(s[0], s[1]) < 0);
                }
            }
            assert forall|a: int| 0 <= a < t.len() - 1 implies str_cmp(#[trigger] t[a], t[a + 1])
                < 0 by {
                if a == 0 {
                    assert(t[0] == s[0] && t[1] == ins[0]);
                } else {
                    assert(t[a] == ins[a - 1] && t[a + 1] == ins[a]);
                }
            }
        }
    }
}

/// The canonical form of any name list is strictly ascending.
pub proof fn lemma_canon_names_sorted(s: Seq<Seq<char>>)
    ensures
        names_strictly_sorted(canon_names(s)),
    decreases s.len(),
{
    if s.len() == 0 {
    } else {
        lemma_canon_names_sorted(s.drop_last());
        lemma_insert_name_sorted(canon_names(s.drop_last()), s.last());
    }
}

proof fn lemma_insert_name_skip(s: Seq<Seq<char>>, x: Seq<char>, i: int)
    requires
        0 <= i <= s.len(),
        forall|j: int| 0 <= j < i ==> str_cmp(x, #[trigger] s[j]) > 0,
    ensures
        insert_name(s, x) == s.take(i) + insert_name(s.skip(i), x),
    decreases i,
{
    if i == 0 {
        assert(s.skip(0) =~= s);
        assert(s.take(0) + insert_name(s, x) =~= insert_name(s, x));
    } else {
        lemma_insert_name_skip(s.drop_first(), x, i - 1);
        assert(forall|j: int| 0 <= j < i - 1 ==> str_cmp(x, #[trigger] s.drop_first()[j]) > 0) by {
            assert(forall|j: int| 0 <= j < i - 1 ==> s.drop_first()[j] == #[trigger] s[j + 1]);
        }
        assert(str_cmp(x, s[0]) > 0);
        assert(s.drop_first().take(i - 1) =~= s.take(i).drop_first());
        assert(s.drop_first().skip(i - 1) =~= s.skip(i));
        assert(seq![s[0]] + (s.drop_first().take(i - 1) + insert_name(s.drop_first().skip(i - 1), x))
            =~= s.take(i) + insert_name(s.skip(i), x));
    }
}

/// Inserts a name into a canonical name vector.
pub fn insert_name_vec(v: &mut Vec<EntityName>, x: EntityName)
    ensures
        dv_names(final(v)@) == insert_name(dv_names(old(v)@), x@),
{
    let ghost orig = dv_names(v@);
    let n = v.len();
    let mut i: usize = 0;
    let mut dup = false;
    while i < n
        invariant_except_break
            !dup,
        invariant
            0 <= i <= n,
            n == v@.len(),
            orig == dv_names(v@),
            orig.len() == n,
            forall|j: int| 0 <= j < i ==> str_cmp(x@, #[trigger] orig[j]) > 0,
        ensures
            0 <= i <= n,
            n == v@.len(),
            orig == dv_names(v@),
            forall|j: int| 0 <= j < i ==> str_cmp(x@, #[trigger] orig[j]) > 0,
            i < n ==> str_cmp(x@, orig[i as int]) <= 0,
            dup <==> (i < n && str_cmp(x@, orig[i as int]) == 0),
        decreases n - i,
    {
        proof {
            assert(orig[i as int] == v@[i as int]@);
        }
        let c = cmp_str(x.0.as_str(), v[i].0.as_str());
        if c == 0 {
            dup = true;
            break ;
        }
        if c < 0 {
            break ;
        }
        i = i + 1;
    }
    proof {
        lemma_insert_name_skip(orig, x@, i as int);
        if i < n {
            assert(orig.skip(i as int)[0] == orig[i as int]);
        }
    }
    if dup {
        proof {
            assert(insert_name(orig.skip(i as int), x@) == orig.skip(i as int));
            assert(orig.take(i as int) + orig.skip(i as int) =~= orig);
        }
        return ;
    }
    if i < n {
        proof {
            assert(insert_name(orig.skip(i as int), x@) == seq![x@] + orig.skip(i as int));
        }
        v.insert(i, x);
        proof {
            assert(dv_names(v@) =~= orig.take(i as int) + (seq![x@] + orig.skip(i as int)));
        }
    } else {
        proof {
            assert(orig.skip(i as int) =~= Seq::empty());
            assert(orig.take(i as int) =~= orig);
        }
        v.push(x);
        proof {
            assert(dv_names(v@) =~= orig + insert_name(Seq::empty(), x@));
        }
    }
}

/// Rebuilds a name list in canonical form.
pub fn canon_names_vec(v: Vec<EntityName>) -> (r: Vec<EntityName>)
    ensures
        dv_names(r@) == canon_names(dv_names(v@)),
{
    let ghost orig = dv_names(v@);
    let total = v.len();
    let mut out: Vec<EntityName> = Vec::new();
    let mut rest = v;
    proof {
        assert(orig.take(0) =~= Seq::empty());
        assert(dv_names(out@) =~= canon_names(orig.take(0)));
        assert(dv_names(rest@) =~= orig.skip(0));
    }
    let mut i: usize = 0;
    while rest.len() > 0
        invariant
            0 <= i <= total,
            total == orig.len(),
            i + rest@.len() == total,
            dv_names(rest@) == orig.skip(i as int),
            dv_names(out@) == canon_names(orig.take(i as int)),
        decreases rest@.len(),
    {
        let ghost prev = dv_names(rest@);
        let p = rest.remove(0);
        proof {
            assert(prev[0] == orig[i as int]);
            assert(p@ == prev[0]);
            assert(dv_names(rest@) =~= prev.drop_first());
            assert(prev.drop_first() =~= orig.skip(i as int + 1));
            assert(orig.take(i as int + 1).drop_last() =~= orig.take(i as int));
            assert(orig.take(i as int + 1).last() == orig[i as int]);
        }
        insert_name_vec(&mut out, p);
        i = i + 1;
    }
    proof {
        assert(orig.take(i as int) =~= orig);
    }
    out
}

/// Copies a name vector element by element.
pub fn clone_names_vec(v: &Vec<EntityName>) -> (r: Vec<EntityName>)
    ensures
        dv_names(r@) == dv_names(v@),
{
    let mut out: Vec<EntityName> = Vec::new();
    let mut i: usize = 0;
    proof {
        assert(dv_names(out@) =~= dv_names(v@).take(0));
    }
    while i < v.len()
        invariant
            0 <= i <= v@.len(),
            out@.len() == i,
            dv_names(out@) == dv_names(v@).take(i as int),
        decreases v@.len() - i,
    {
        let x = v[i].clone();
        out.push(x);
        proof {
            assert(dv_names(v@)[i as int] == v@[i as int]@);
            assert(dv_names(out@) =~= dv_names(v@).take(i as int + 1));
        }
        i = i + 1;
    }
    proof {
        assert(dv_names(v@).take(i as int) =~= dv_names(v@));
    }
    out
}

pub fn cmp_names_vec(a: &Vec<EntityName>, b: &Vec<EntityName>) -> (r: i8)
    ensures
        r as int == names_cmp(dv_names(a@), dv_names(b@)),
{
    let ghost va = dv_names(a@);
    let ghost vb = dv_names(b@);
    let mut i: usize = 0;
    proof {
        assert(va.skip(0) =~= va);
        assert(vb.skip(0) =~= vb);
    }
    loop
        invariant
            0 <= i <= a@.len(),
            0 <= i <= b@.len(),
            va == dv_names(a@),
            vb == dv_names(b@),
            va.len() == a@.len(),
            vb.len() == b@.len(),
            names_cmp(va, vb) == names_cmp(va.skip(i as int), vb.skip(i as int)),
        decreases a@.len() - i,
    {
        if i == a.len() && i == b.len() {
            proof {
                assert(va.skip(i as int).len() == 0 && vb.skip(i as int).len() == 0);
            }
            return 0;
        }
        if i == a.len() {
            proof {
                assert(vb.skip(i as int).len() > 0);
            }
            return -1;
        }
        if i == b.len() {
            return 1;
        }
        proof {
            assert(va.skip(i as int)[0] == va[i as int]);
            assert(vb.skip(i as int)[0] == vb[i as int]);
            assert(va[i as int] == a@[i as int]@);
            assert(vb[i as int] == b@[i as int]@);
        }
        let c = cmp_str(a[i].0.as_str(), b[i].0.as_str());
        if c != 0 {
            return c;
        }
        proof {
            assert(va.skip(i as int).drop_first() =~= va.skip(i as int + 1));
            assert(vb.skip(i as int).drop_first() =~= vb.skip(i as int + 1));
        }
        i = i + 1;
    }
}

// ------------------------------------------------------------------
// Rules
// ------------------------------------------------------------------
/// A require or exclude relation from a source name to one target (`Mono`)
/// or to a set of targets (`Multi`).
#[derive(Debug, PartialEq, Eq)]
pub enum EntityRule {
    Mono {
        source: EntityName,
        target: EntityName,
        rtype: EntityRuleType,
        rule_source: EntityRuleSource,
        metadata: Option<EntityRuleMetadata>,
    },
    Multi {
        source: EntityName,
        targets: Vec<EntityName>,
        rtype: EntityRuleType,
        rule_source: EntityRuleSource,
        metadata: Option<EntityRuleMetadata>,
    },
}

/// The mathematical shape of a rule: a `Mono` rule has `multi == false` and a
/// single target.
#[verifier::ext_equal]
pub struct RuleView {
    pub multi: bool,
    pub source: Seq<char>,
    pub targets: Seq<Seq<char>>,
    pub rtype: EntityRuleType,
    pub rule_source: RuleSourceView,
    pub metadata: Option<MetadataView>,
}

impl View for EntityRule {
    type V = RuleView;

    open spec fn view(&self) -> RuleView {
        match self {
            EntityRule::Mono { source, target, rtype, rule_source, metadata } => RuleView {
                multi: false,
                source: source@,
                targets: seq![target@],
                rtype: *rtype,
                rule_source: rule_source@,
                metadata: match metadata {
                    Some(m) => Some(m@),
                    None => None,
                },
            },
            EntityRule::Multi { source, targets, rtype, rule_source, metadata } => RuleView {
                multi: true,
                source: source@,
                targets: dv_names(targets@),
                rtype: *rtype,
                rule_source: rule_source@,
                metadata: match metadata {
                    Some(m) => Some(m@),
                    None => None,
                },
            },
        }
    }
}

impl DeepView for EntityRule {
    type V = RuleView;

    open spec fn deep_view(&self) -> RuleView {
        self.view()
    }
}

impl RuleView {
    pub open spec fn is_require(self) -> bool {
        self.rtype == EntityRuleType::Require
    }

    pub open spec fn is_exclude(self) -> bool {
        self.rtype == EntityRuleType::Exclude
    }

    /// Whether `t` is among the rule's targets.
    pub open spec fn has_target(self, t: Seq<char>) -> bool {
        exists|i: int| 0 <= i < self.targets.len() && self.targets[i] == t
    }
}

pub open spec fn opt_meta_cmp(a: Option<MetadataView>, b: Option<MetadataView>) -> int {
    match (a, b) {
        (Option::None, Option::None) => 0,
        (Option::None, Option::Some(_)) => -1,
        (Option::Some(_), Option::None) => 1,
        (Option::Some(x), Option::Some(y)) => meta_cmp(x, y),
    }
}

pub open spec fn bool_idx(b: bool) -> int {
    if b {
        1
    } else {
        0
    }
}

pub open spec fn rtype_idx(t: EntityRuleType) -> int {
    match t {
        EntityRuleType::Require => 0,
        EntityRuleType::Exclude => 1,
    }
}

/// The total order on rules: mono before multi, then source, targets, type,
/// origin, metadata.
pub open spec fn rule_cmp(a: RuleView, b: RuleView) -> int {
    lex2(
        int_cmp(bool_idx(a.multi), bool_idx(b.multi)),
        lex2(
            str_cmp(a.source, b.source),
            lex2(
                names_cmp(a.targets, b.targets),
                lex2(
                    int_cmp(rtype_idx(a.rtype), rtype_idx(b.rtype)),
                    lex2(
                        rule_source_cmp(a.rule_source, b.rule_source),
                        opt_meta_cmp(a.metadata, b.metadata),
                    ),
                ),
            ),
        ),
    )
}

pub proof fn lemma_rule_cmp_zero(a: RuleView, b: RuleView)
    ensures
        (rule_cmp(a, b) == 0) <==> (a == b),
{
    if rule_cmp(a, b) == 0 {
        lemma_str_cmp_zero(a.source, b.source);
        lemma_names_cmp_zero(a.targets, b.targets);
        lemma_rule_source_cmp_zero(a.rule_source, b.rule_source);
        if a.metadata is Some && b.metadata is Some {
            lemma_meta_cmp_zero(a.metadata->0, b.metadata->0);
        }
        assert(a =~= b);
    } else {
        if a == b {
            lemma_str_cmp_zero(a.source, b.source);
            lemma_names_cmp_zero(a.targets, b.targets);
            lemma_rule_source_cmp_zero(a.rule_source, b.rule_source);
            if a.metadata is Some && b.metadata is Some {
                lemma_meta_cmp_zero(a.metadata->0, b.metadata->0);
            }
        }
    }
}

fn cmp_opt_metadata(a: &Option<EntityRuleMetadata>, b: &Option<EntityRuleMetadata>) -> (r: i8)
    ensures
        r as int == opt_meta_cmp(
            match a {
                Some(m) => Some(m@),
                None => None,
            },
            match b {
                Some(m) => Some(m@),
                None => None,
            },
        ),
{
    match (a, b) {
        (Option::None, Option::None) => 0,
        (Option::None, Option::Some(_)) => -1,
        (Option::Some(_), Option::None) => 1,
        (Option::Some(x), Option::Some(y)) => cmp_metadata(x, y),
    }
}

/// Executable rule comparison, agreeing with [`rule_cmp`].
pub fn cmp_rule(a: &EntityRule, b: &EntityRule) -> (r: i8)
    ensures
        r as int == rule_cmp(a@, b@),
{
    match (a, b) {
        (EntityRule::Mono { .. }, EntityRule::Multi { .. }) => -1,
        (EntityRule::Multi { .. }, EntityRule::Mono { .. }) => 1,
        (
            EntityRule::Mono { source: sa, target: ta, rtype: ya, rule_source: ra, metadata: ma },
            EntityRule::Mono { source: sb, target: tb, rtype: yb, rule_source: rb, metadata: mb },
        ) => {
            proof {
                assert(a@.targets =~= seq![ta@]);
                assert(b@.targets =~= seq![tb@]);
            }
            let c = cmp_str(sa.0.as_str(), sb.0.as_str());
            if c != 0 {
                return c;
            }
            let c = cmp_str(ta.0.as_str(), tb.0.as_str());
            if c != 0 {
                proof {
                    assert(names_cmp(a@.targets, b@.targets) == str_cmp(ta@, tb@)) by {
                        assert(a@.targets[0] == ta@ && b@.targets[0] == tb@);
                    }
                }
                return c;
            }
            proof {
                assert(names_cmp(a@.targets, b@.targets) == 0) by {
                    assert(a@.targets[0] == ta@ && b@.targets[0] == tb@);
                    assert(str_cmp(a@.targets[0], b@.targets[0]) == 0);
                    assert(a@.targets.drop_first() =~= Seq::<Seq<char>>::empty());
                    assert(b@.targets.drop_first() =~= Seq::<Seq<char>>::empty());
                    assert(names_cmp(a@.targets.drop_first(), b@.targets.drop_first()) == 0);
                }
            }
            let c = cmp_rtype(ya, yb);
            if c != 0 {
                return c;
            }
            let c = cmp_rule_source(ra, rb);
            if c != 0 {
                return c;
            }
            cmp_opt_metadata(ma, mb)
        },
        (
            EntityRule::Multi { source: sa, targets: ta, rtype: ya, rule_source: ra, metadata: ma },
            EntityRule::Multi { source: sb, targets: tb, rtype: yb, rule_source: rb, metadata: mb },
        ) => {
            let c = cmp_str(sa.0.as_str(), sb.0.as_str());
            if c != 0 {
                return c;
            }
            let c = cmp_names_vec(ta, tb);
            if c != 0 {
                return c;
            }
            let c = cmp_rtype(ya, yb);
            if c != 0 {
                return c;
            }
            let c = cmp_rule_source(ra, rb);
            if c != 0 {
                return c;
            }
            cmp_opt_metadata(ma, mb)
        },
    }
}

fn cmp_rtype(a: &EntityRuleType, b: &EntityRuleType) -> (r: i8)
    ensures
        r as int == int_cmp(rtype_idx(*a), rtype_idx(*b)),
{
    match (a, b) {
        (EntityRuleType::Require, EntityRuleType::Require) => 0,
        (EntityRuleType::Require, EntityRuleType::Exclude) => -1,
        (EntityRuleType::Exclude, EntityRuleType::Require) => 1,
        (EntityRuleType::Exclude, EntityRuleType::Exclude) => 0,
    }
}

// ------------------------------------------------------------------
// Rule lists as sorted, duplicate-free vectors.
// ------------------------------------------------------------------
/// Inserts a rule keeping the sequence sorted; an equal rule is dropped.
pub open spec fn insert_rule(s: Seq<RuleView>, x: RuleView) -> Seq<RuleView>
    decreases s.len(),
{
    if s.len() == 0 {
        seq![x]
    } else {
        let c = rule_cmp(x, s[0]);
        if c == 0 {
            s
        } else if c < 0 {
            seq![x] + s
        } else {
            seq![s[0]] + insert_rule(s.drop_first(), x)
        }
    }
}

/// Canonical (sorted, duplicate-free) form of a rule list.
pub open spec fn canon_rules(s: Seq<RuleView>) -> Seq<RuleView>
    decreases s.len(),
{
    if s.len() == 0 {
        Seq::empty()
    } else {
        insert_rule(canon_rules(s.drop_last()), s.last())
    }
}

proof fn lemma_insert_rule_skip(s: Seq<RuleView>, x: RuleView, i: int)
    requires
        0 <= i <= s.len(),
        forall|j: int| 0 <= j < i ==> rule_cmp(x, #[trigger] s[j]) > 0,
    ensures
        insert_rule(s, x) == s.take(i) + insert_rule(s.skip(i), x),
    decreases i,
{
    if i == 0 {
        assert(s.skip(0) =~= s);
        assert(s.take(0) + insert_rule(s, x) =~= insert_rule(s, x));
    } else {
        lemma_insert_rule_skip(s.drop_first(), x, i - 1);
        assert(forall|j: int| 0 <= j < i - 1 ==> rule_cmp(x, #[trigger] s.drop_first()[j]) > 0) by {
            assert(forall|j: int| 0 <= j < i - 1 ==> s.drop_first()[j] == #[trigger] s[j + 1]);
        }
        assert(rule_cmp(x, s[0]) > 0);
        assert(s.drop_first().take(i - 1) =~= s.take(i).drop_first());
        assert(s.drop_first().skip(i - 1) =~= s.skip(i));
        assert(seq![s[0]] + (s.drop_first().take(i - 1) + insert_rule(s.drop_first().skip(i - 1), x))
            =~= s.take(i) + insert_rule(s.skip(i), x));
    }
}

/// Inserts a rule into a canonical rule vector.
pub fn insert_rule_vec(v: &mut Vec<EntityRule>, x: EntityRule)
    ensures
        dv_rules(final(v)@) == insert_rule(dv_rules(old(v)@), x@),
{
    let ghost orig = dv_rules(v@);
    let n = v.len();
    let mut i: usize = 0;
    let mut dup = false;
    while i < n
        invariant_except_break
            !dup,
        invariant
            0 <= i <= n,
            n == v@.len(),
            orig == dv_rules(v@),
            orig.len() == n,
            forall|j: int| 0 <= j < i ==> rule_cmp(x@, #[trigger] orig[j]) > 0,
        ensures
            0 <= i <= n,
            n == v@.len(),
            orig == dv_rules(v@),
            forall|j: int| 0 <= j < i ==> rule_cmp(x@, #[trigger] orig[j]) > 0,
            i < n ==> rule_cmp(x@, orig[i as int]) <= 0,
            dup <==> (i < n && rule_cmp(x@, orig[i as int]) == 0),
        decreases n - i,
    {
        proof {
            assert(orig[i as int] == v@[i as int]@);
        }
        let c = cmp_rule(&x, &v[i]);
        if c == 0 {
            dup = true;
            break ;
        }
        if c < 0 {
            break ;
        }
        i = i + 1;
    }
    proof {
        lemma_insert_rule_skip(orig, x@, i as int);
        if i < n {
            assert(orig.skip(i as int)[0] == orig[i as int]);
        }
    }
    if dup {
        proof {
            assert(insert_rule(orig.skip(i as int), x@) == orig.skip(i as int));
            assert(orig.take(i as int) + orig.skip(i as int) =~= orig);
        }
        return ;
    }
    if i < n {
        proof {
            assert(insert_rule(orig.skip(i as int), x@) == seq![x@] + orig.skip(i as int));
        }
        v.insert(i, x);
        proof {
            assert(dv_rules(v@) =~= orig.take(i as int) + (seq![x@] + orig.skip(i as int)));
        }
    } else {
        proof {
            assert(orig.skip(i as int) =~= Seq::empty());
            assert(orig.take(i as int) =~= orig);
        }
        v.push(x);
        proof {
            assert(dv_rules(v@) =~= orig + insert_rule(Seq::empty(), x@));
        }
    }
}

/// Rebuilds a rule list in canonical form.
pub fn canon_rules_vec(v: Vec<EntityRule>) -> (r: Vec<EntityRule>)
    ensures
        dv_rules(r@) == canon_rules(dv_rules(v@)),
{
    let ghost orig = dv_rules(v@);
    let total = v.len();
    let mut out: Vec<EntityRule> = Vec::new();
    let mut rest = v;
    proof {
        assert(orig.take(0) =~= Seq::empty());
        assert(dv_rules(out@) =~= canon_rules(orig.take(0)));
        assert(dv_rules(rest@) =~= orig.skip(0));
    }
    let mut i: usize = 0;
    while rest.len() > 0
        invariant
            0 <= i <= total,
            total == orig.len(),
            i + rest@.len() == total,
            dv_rules(rest@) == orig.skip(i as int),
            dv_rules(out@) == canon_rules(orig.take(i as int)),
        decreases rest@.len(),
    {
        let ghost prev = dv_rules(rest@);
        let p = rest.remove(0);
        proof {
            assert(prev[0] == orig[i as int]);
            assert(p@ == prev[0]);
            assert(dv_rules(rest@) =~= prev.drop_first());
            assert(prev.drop_first() =~= orig.skip(i as int + 1));
            assert(orig.take(i as int + 1).drop_last() =~= orig.take(i as int));
            assert(orig.take(i as int + 1).last() == orig[i as int]);
        }
        insert_rule_vec(&mut out, p);
        i = i + 1;
    }
    proof {
        assert(orig.take(i as int) =~= orig);
    }
    out
}

/// Copies a rule vector element by element.
pub fn clone_rules_vec(v: &Vec<EntityRule>) -> (r: Vec<EntityRule>)
    ensures
        dv_rules(r@) == dv_rules(v@),
{
    let mut out: Vec<EntityRule> = Vec::new();
    let mut i: usize = 0;
    proof {
        assert(dv_rules(out@) =~= dv_rules(v@).take(0));
    }
    while i < v.len()
        invariant
            0 <= i <= v@.len(),
            out@.len() == i,
            dv_rules(out@) == dv_rules(v@).take(i as int),
        decreases v@.len() - i,
    {
        let x = v[i].clone();
        out.push(x);
        proof {
            assert(dv_rules(v@)[i as int] == v@[i as int]@);
            assert(dv_rules(out@) =~= dv_rules(v@).take(i as int + 1));
        }
        i = i + 1;
    }
    proof {
        assert(dv_rules(v@).take(i as int) =~= dv_rules(v@));
    }
    out
}

/// Viewing distributes over concatenation of rule vectors.
pub proof fn lemma_dv_rules_concat(a: Seq<EntityRule>, b: Seq<EntityRule>)
    ensures
        dv_rules(a + b) == dv_rules(a) + dv_rules(b),
{
    assert(dv_rules(a + b) =~= dv_rules(a) + dv_rules(b));
}

/// Sorted insertion neither adds nor drops names.
pub proof fn lemma_insert_name_membership(s: Seq<Seq<char>>, x: Seq<char>, y: Seq<char>)
    ensures
        insert_name(s, x).contains(y) <==> (s.contains(y) || y == x),
    decreases s.len(),
{
    lemma_str_cmp_zero(x, if s.len() > 0 {
        s[0]
    } else {
        x
    });
    if s.len() == 0 {
        assert(insert_name(s, x) =~= seq![x]);
        assert(insert_name(s, x)[0] == x);
        if s.contains(y) {
            let i = choose|i: int| 0 <= i < s.len() && s[i] == y;
        }
    } else {
        let c = str_cmp(x, s[0]);
        if c == 0 {
            if y == x {
                assert(s[0] == x);
                assert(s.contains(y));
            }
        } else if c < 0 {
            assert forall|z: Seq<char>| #[trigger]
                (seq![x] + s).contains(z) implies s.contains(z) || z == x by {
                let i = choose|i: int| 0 <= i < (seq![x] + s).len() && (seq![x] + s)[i] == z;
                if i > 0 {
                    assert(s[i - 1] == z);
                }
            }
            if s.contains(y) {
                let i = choose|i: int| 0 <= i < s.len() && s[i] == y;
                assert((seq![x] + s)[i + 1] == y);
            }
            if y == x {
                assert((seq![x] + s)[0] == y);
            }
        } else {
            lemma_insert_name_membership(s.drop_first(), x, y);
            let rest = insert_name(s.drop_first(), x);
            assert(insert_name(s, x) == seq![s[0]] + rest);
            assert forall|z: Seq<char>| #[trigger]
                (seq![s[0]] + rest).contains(z) implies rest.contains(z) || z == s[0] by {
                let i = choose|i: int|
                    0 <= i < (seq![s[0]] + rest).len() && (seq![s[0]] + rest)[i] == z;
                if i > 0 {
                    assert(rest[i - 1] == z);
                }
            }
            if insert_name(s, x).contains(y) {
                if y == s[0] {
                    assert(s.contains(y));
                } else {
                    assert(rest.contains(y));
                    if s.drop_first().contains(y) {
                        let i = choose|i: int|
                            0 <= i < s.drop_first().len() && s.drop_first()[i] == y;
                        assert(s[i + 1] == y);
                        assert(s.contains(y));
                    }
                }
            }
            if s.contains(y) {
                let i = choose|i: int| 0 <= i < s.len() && s[i] == y;
                if i == 0 {
                    assert((seq![s[0]] + rest)[0] == y);
                } else {
                    assert(s.drop_first()[i - 1] == y);
                    assert(s.drop_first().contains(y));
                    let j = choose|j: int| 0 <= j < rest.len() && rest[j] == y;
                    assert((seq![s[0]] + rest)[j + 1] == y);
                }
            }
            if y == x {
                let j = choose|j: int| 0 <= j < rest.len() && rest[j] == y;
                assert((seq![s[0]] + rest)[j + 1] == y);
            }
        }
    }
}

/// Canonicalization neither adds nor drops names.
pub proof fn lemma_canon_names_membership(s: Seq<Seq<char>>, y: Seq<char>)
    ensures
        canon_names(s).contains(y) <==> s.contains(y),
    decreases s.len(),
{
    if s.len() == 0 {
        if s.contains(y) {
            let i = choose|i: int| 0 <= i < s.len() && s[i] == y;
        }
    } else {
        lemma_canon_names_membership(s.drop_last(), y);
        lemma_insert_name_membership(canon_names(s.drop_last()), s.last(), y);
        if canon_names(s).contains(y) {
            if s.drop_last().contains(y) {
                let i = choose|i: int| 0 <= i < s.drop_last().len() && s.drop_last()[i] == y;
                assert(s[i] == y);
            } else {
                assert(y == s.last());
                assert(s[s.len() - 1] == y);
            }
        }
        if s.contains(y) {
            let i = choose|i: int| 0 <= i < s.len() && s[i] == y;
            if i < s.len() - 1 {
                assert(s.drop_last()[i] == y);
                assert(s.drop_last().contains(y));
            } else {
                assert(y == s.last());
            }
        }
    }
}

/// Sorted insertion neither adds nor drops rule views.
pub proof fn lemma_insert_rule_membership(s: Seq<RuleView>, x: RuleView, y: RuleView)
    ensures
        insert_rule(s, x).contains(y) <==> (s.contains(y) || y == x),
    decreases s.len(),
{
    lemma_rule_cmp_zero(x, if s.len() > 0 {
        s[0]
    } else {
        x
    });
    if s.len() == 0 {
        assert(insert_rule(s, x) =~= seq![x]);
        assert(insert_rule(s, x)[0] == x);
        if s.contains(y) {
            let i = choose|i: int| 0 <= i < s.len() && s[i] == y;
        }
    } else {
        let c = rule_cmp(x, s[0]);
        if c == 0 {
            if y == x {
                assert(s[0] == x);
                assert(s.contains(y));
            }
        } else if c < 0 {
            assert forall|z: RuleView| #[trigger]
                (seq![x] + s).contains(z) implies s.contains(z) || z == x by {
                let i = choose|i: int| 0 <= i < (seq![x] + s).len() && (seq![x] + s)[i] == z;
                if i > 0 {
                    assert(s[i - 1] == z);
                }
            }
            if s.contains(y) {
                let i = choose|i: int| 0 <= i < s.len() && s[i] == y;
                assert((seq![x] + s)[i + 1] == y);
            }
            if y == x {
                assert((seq![x] + s)[0] == y);
            }
        } else {
            lemma_insert_rule_membership(s.drop_first(), x, y);
            let rest = insert_rule(s.drop_first(), x);
            assert(insert_rule(s, x) == seq![s[0]] + rest);
            assert forall|z: RuleView| #[trigger]
                (seq![s[0]] + rest).contains(z) implies rest.contains(z) || z == s[0] by {
                let i = choose|i: int|
                    0 <= i < (seq![s[0]] + rest).len() && (seq![s[0]] + rest)[i] == z;
                if i > 0 {
                    assert(rest[i - 1] == z);
                }
            }
            if insert_rule(s, x).contains(y) {
                if y == s[0] {
                    assert(s.contains(y));
                } else {
                    assert(rest.contains(y));
                    if s.drop_first().contains(y) {
                        let i = choose|i: int|
                            0 <= i < s.drop_first().len() && s.drop_first()[i] == y;
                        assert(s[i + 1] == y);
                        assert(s.contains(y));
                    }
                }
            }
            if s.contains(y) {
                let i = choose|i: int| 0 <= i < s.len() && s[i] == y;
                if i == 0 {
                    assert((seq![s[0]] + rest)[0] == y);
                } else {
                    assert(s.drop_first()[i - 1] == y);
                    assert(s.drop_first().contains(y));
                    let j = choose|j: int| 0 <= j < rest.len() && rest[j] == y;
                    assert((seq![s[0]] + rest)[j + 1] == y);
                }
            }
            if y == x {
                let j = choose|j: int| 0 <= j < rest.len() && rest[j] == y;
                assert((seq![s[0]] + rest)[j + 1] == y);
            }
        }
    }
}

/// Canonicalization neither adds nor drops rule views.
pub proof fn lemma_canon_rules_membership(s: Seq<RuleView>, y: RuleView)
    ensures
        canon_rules(s).contains(y) <==> s.contains(y),
    decreases s.len(),
{
    if s.len() == 0 {
        if s.contains(y) {
            let i = choose|i: int| 0 <= i < s.len() && s[i] == y;
        }
    } else {
        lemma_canon_rules_membership(s.drop_last(), y);
        lemma_insert_rule_membership(canon_rules(s.drop_last()), s.last(), y);
        if canon_rules(s).contains(y) {
            if s.drop_last().contains(y) {
                let i = choose|i: int| 0 <= i < s.drop_last().len() && s.drop_last()[i] == y;
                assert(s[i] == y);
            } else {
                assert(y == s.last());
                assert(s[s.len() - 1] == y);
            }
        }
        if s.contains(y) {
            let i = choose|i: int| 0 <= i < s.len() && s[i] == y;
            if i < s.len() - 1 {
                assert(s.drop_last()[i] == y);
                assert(s.drop_last().contains(y));
            } else {
                assert(y == s.last());
            }
        }
    }
}

/// Concatenation holds exactly the members of both parts.
pub proof fn lemma_rules_concat_membership(a: Seq<RuleView>, b: Seq<RuleView>, y: RuleView)
    ensures
        (a + b).contains(y) <==> (a.contains(y) || b.contains(y)),
{
    if (a + b).contains(y) {
        let i = choose|i: int| 0 <= i < (a + b).len() && (a + b)[i] == y;
        if i < a.len() {
            assert(a[i] == y);
        } else {
            assert(b[i - a.len()] == y);
        }
    }
    if a.contains(y) {
        let i = choose|i: int| 0 <= i < a.len() && a[i] == y;
        assert((a + b)[i] == y);
    }
    if b.contains(y) {
        let i = choose|i: int| 0 <= i < b.len() && b[i] == y;
        assert((a + b)[a.len() + i] == y);
    }
}

impl Clone for EntityRule {
    fn clone(&self) -> (r: Self)
        ensures
            r@ == self@,
    {
        let r = match self {
            EntityRule::Mono { source, target, rtype, rule_source, metadata } => EntityRule::Mono {
                source: source.clone(),
                target: target.clone(),
                rtype: *rtype,
                rule_source: rule_source.clone(),
                metadata: match metadata {
                    Some(m) => Some(m.clone()),
                    None => None,
                },
            },
            EntityRule::Multi { source, targets, rtype, rule_source, metadata } => EntityRule::Multi {
                source: source.clone(),
                targets: clone_names_vec(targets),
                rtype: *rtype,
                rule_source: rule_source.clone(),
                metadata: match metadata {
                    Some(m) => Some(m.clone()),
                    None => None,
                },
            },
        };
        proof {
            assert(r@ =~= self@);
        }
        r
    }
}

impl EntityRule {
    /// Builds a one-target rule.
    pub fn mono(
        source: EntityName,
        target: EntityName,
        rtype: EntityRuleType,
        rule_source: EntityRuleSource,
        metadata: Option<EntityRuleMetadata>,
    ) -> (r: Self)
        ensures
            r@ == (RuleView {
                multi: false,
                source: source@,
                targets: seq![target@],
                rtype: rtype,
                rule_source: rule_source@,
                metadata: match metadata {
                    Some(m) => Some(m@),
                    None => None::<MetadataView>,
                },
            }),
            rule_canonical(r@),
    {
        let r = EntityRule::Mono { source, target, rtype, rule_source, metadata };
        proof {
            assert(r@ =~= RuleView {
                multi: false,
                source: r@.source,
                targets: r@.targets,
                rtype: r@.rtype,
                rule_source: r@.rule_source,
                metadata: r@.metadata,
            });
        }
        r
    }

    /// Builds a set-target rule; the target list is stored in canonical form.
    pub fn multi(
        source: EntityName,
        targets: Vec<EntityName>,
        rtype: EntityRuleType,
        rule_source: EntityRuleSource,
        metadata: Option<EntityRuleMetadata>,
    ) -> (r: Self)
        ensures
            r@ == (RuleView {
                multi: true,
                source: source@,
                targets: canon_names(dv_names(targets@)),
                rtype: rtype,
                rule_source: rule_source@,
                metadata: match metadata {
                    Some(m) => Some(m@),
                    None => None::<MetadataView>,
                },
            }),
            rule_canonical(r@),
    {
        proof {
            lemma_canon_names_sorted(dv_names(targets@));
        }
        let targets = canon_names_vec(targets);
        let r = EntityRule::Multi { source, targets, rtype, rule_source, metadata };
        proof {
            assert(r@ =~= RuleView {
                multi: true,
                source: r@.source,
                targets: r@.targets,
                rtype: r@.rtype,
                rule_source: r@.rule_source,
                metadata: r@.metadata,
            });
        }
        r
    }

    pub fn source(&self) -> (r: &EntityName)
        ensures
            r@ == self@.source,
    {
        match self {
            EntityRule::Mono { source, .. } => source,
            EntityRule::Multi { source, .. } => source,
        }
    }

    pub fn set_rule_source(&mut self, new_source: EntityRuleSource)
        ensures
            final(self)@ == (RuleView { rule_source: new_source@, ..old(self)@ }),
    {
        match self {
            EntityRule::Mono { rule_source, .. } => {
                *rule_source = new_source;
            },
            EntityRule::Multi { rule_source, .. } => {
                *rule_source = new_source;
            },
        }
        proof {
            assert(final(self)@ =~= RuleView { rule_source: new_source@, ..old(self)@ });
        }
    }

    fn metadata_ref(&self) -> (r: &Option<EntityRuleMetadata>)
        ensures
            self@.metadata == match r {
                Some(m) => Some(m@),
                None => None::<MetadataView>,
            },
    {
        match self {
            EntityRule::Mono { metadata, .. } => metadata,
            EntityRule::Multi { metadata, .. } => metadata,
        }
    }

    /// The file recorded in the rule's metadata, if any.
    pub fn meta_file(&self) -> (r: Option<&str>)
        ensures
            match self@.metadata {
                Some(m) => match m.file {
                    Some(f) => r is Some && r->0@ == f,
                    None => r is None,
                },
                None => r is None,
            },
    {
        match self.metadata_ref() {
            Some(m) => m.file(),
            None => None,
        }
    }

    /// The line recorded in the rule's metadata, if any.
    pub fn meta_line(&self) -> (r: Option<usize>)
        ensures
            r == match self@.metadata {
                Some(m) => m.line,
                None => None::<usize>,
            },
    {
        match self.metadata_ref() {
            Some(m) => m.line(),
            None => None,
        }
    }

    /// The topology key recorded in the rule's metadata, where it names a
    /// recognized domain.
    pub fn meta_topology(&self) -> (r: Option<crate::model::topology::EntityRuleTopologyKey>)
        ensures
            r == match self@.metadata {
                Some(m) => match spec_meta_get(m, "topology"@) {
                    Some(v) => crate::model::topology::spec_topology_of(v),
                    None => None,
                },
                None => None::<crate::model::topology::EntityRuleTopologyKey>,
            },
    {
        match self.metadata_ref() {
            Some(m) => match m.topology_key() {
                Some(v) => crate::model::topology::EntityRuleTopologyKey::from_key(v),
                None => None,
            },
            None => None,
        }
    }

    /// The file of the rule's origin, if known.
    pub fn file(&self) -> (r: Option<&str>)
        ensures
            match self@.rule_source {
                RuleSourceView::File(p, _) => r is Some && r->0@ == p,
                RuleSourceView::Unknown => r is None,
            },
    {
        match self {
            EntityRule::Mono { rule_source, .. } => rule_source.file(),
            EntityRule::Multi { rule_source, .. } => rule_source.file(),
        }
    }

    /// The line of the rule's origin, if known.
    pub fn line(&self) -> (r: Option<usize>)
        ensures
            r == match self@.rule_source {
                RuleSourceView::File(_, l) => Some(l),
                RuleSourceView::Unknown => None::<usize>,
            },
    {
        match self {
            EntityRule::Mono { rule_source, .. } => rule_source.line(),
            EntityRule::Multi { rule_source, .. } => rule_source.line(),
        }
    }

    /// A metadata entry by key.
    pub fn metadata(&self, key: &str) -> (r: Option<&str>)
        ensures
            match self@.metadata {
                Some(m) => match spec_meta_get(m, key@) {
                    Some(v) => r is Some && r->0@ == v,
                    None => r is None,
                },
                None => r is None,
            },
    {
        match self.metadata_ref() {
            Some(m) => match m.get_metadata() {
                Some(kv) => kv_get_vec(kv, key),
                None => None,
            },
            None => None,
        }
    }

    /// The byte range `index..index+len` taken from the metadata, when both
    /// entries are present and parse as decimal numbers that fit.
    pub fn range(&self) -> (r: Option<(usize, usize)>)
        ensures
            r == spec_rule_range(self@),
    {
        let start = match self.metadata("index") {
            Some(v) => match parse_usize(v) {
                Some(n) => n,
                None => 0,
            },
            None => {
                return None;
            },
        };
        let len = match self.metadata("len") {
            Some(v) => match parse_usize(v) {
                Some(n) => n,
                None => 0,
            },
            None => {
                return None;
            },
        };
        if start > usize::MAX - len {
            return None;
        }
        Some((start, start + len))
    }

    pub fn rule_type(&self) -> (r: EntityRuleType)
        ensures
            r == self@.rtype,
    {
        match self {
            EntityRule::Mono { rtype, .. } => *rtype,
            EntityRule::Multi { rtype, .. } => *rtype,
        }
    }

    /// The rule's targets, as copies.
    pub fn targets(&self) -> (r: Vec<EntityName>)
        ensures
            dv_names(r@) == self@.targets,
            rule_canonical(self@) ==> names_strictly_sorted(dv_names(r@)),
    {
        match self {
            EntityRule::Mono { target, .. } => {
                let mut out: Vec<EntityName> = Vec::new();
                out.push(target.clone());
                proof {
                    assert(dv_names(out@) =~= self@.targets);
                }
                out
            },
            EntityRule::Multi { targets, .. } => clone_names_vec(targets),
        }
    }

    pub fn is_require(&self) -> (r: bool)
        ensures
            r == self@.is_require(),
    {
        match self {
            EntityRule::Mono { rtype, .. } => *rtype == EntityRuleType::Require,
            EntityRule::Multi { rtype, .. } => *rtype == EntityRuleType::Require,
        }
    }

    pub fn is_exclude(&self) -> (r: bool)
        ensures
            r == self@.is_exclude(),
    {
        match self {
            EntityRule::Mono { rtype, .. } => *rtype == EntityRuleType::Exclude,
            EntityRule::Multi { rtype, .. } => *rtype == EntityRuleType::Exclude,
        }
    }

    pub fn is_multi(&self) -> (r: bool)
        ensures
            r == self@.multi,
    {
        matches!(self, EntityRule::Multi { .. })
    }

    pub fn is_mono(&self) -> (r: bool)
        ensures
            r == !self@.multi,
    {
        matches!(self, EntityRule::Mono { .. })
    }

    /// Whether `target` is among the rule's targets.
    pub fn is_in_target(&self, target: &str) -> (r: bool)
        ensures
            r == self@.has_target(target@),
    {
        match self {
            EntityRule::Mono { target: t, .. } => {
                let r = eq_str(t.0.as_str(), target);
                proof {
                    assert(self@.targets[0] == t@);
                }
                r
            },
            EntityRule::Multi { targets, .. } => {
                let mut i: usize = 0;
                loop
                    invariant
                        0 <= i <= targets@.len(),
                        dv_names(targets@) == self@.targets,
                        self@.targets.len() == targets@.len(),
                        forall|j: int| 0 <= j < i ==> self@.targets[j] != target@,
                    decreases targets@.len() - i,
                {
                    if i == targets.len() {
                        return false;
                    }
                    proof {
                        assert(self@.targets[i as int] == targets@[i as int]@);
                    }
                    if eq_str(targets[i].0.as_str(), target) {
                        proof {
                            assert(self@.targets[i as int] == targets@[i as int]@);
                        }
                        return true;
                    }
                    i = i + 1;
                }
            },
        }
    }
}

/// What [`EntityRule::range`] yields: present only when both `index` and
/// `len` metadata entries exist; a malformed number counts as zero; `None`
/// when the sum overflows.
pub open spec fn spec_rule_range(r: RuleView) -> Option<(usize, usize)> {
    match r.metadata {
        Some(m) => match (spec_meta_get(m, "index"@), spec_meta_get(m, "len"@)) {
            (Some(iv), Some(lv)) => {
                let start = match spec_parse_usize(iv) {
                    Some(n) => n,
                    None => 0usize,
                };
                let len = match spec_parse_usize(lv) {
                    Some(n) => n,
                    None => 0usize,
                };
                if start + len <= usize::MAX {
                    Some((start, (start + len) as usize))
                } else {
                    None
                }
            },
            _ => None,
        },
        None => None,
    }
}

} // verus!

