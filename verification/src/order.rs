//! Total orders used to keep rule lists and name sets sorted and
//! deduplicated, so that every solver output is deterministic.
//!
//! Each `*_cmp` spec function returns a three-way result (negative, zero,
//! positive); the executable comparators return `-1`, `0` or `1` and are
//! proved to agree with the spec order. A comparison of zero coincides with
//! equality of the compared views.

use vstd::prelude::*;

verus! {

pub open spec fn int_cmp(a: int, b: int) -> int {
    if a < b {
        -1
    } else if a == b {
        0
    } else {
        1
    }
}

/// Chains two comparison results lexicographically.
pub open spec fn lex2(c1: int, c2: int) -> int {
    if c1 != 0 {
        c1
    } else {
        c2
    }
}

/// Lexicographic order on character sequences, by code point.
pub open spec fn str_cmp(a: Seq<char>, b: Seq<char>) -> int
    decreases a.len(),
{
    if a.len() == 0 && b.len() == 0 {
        0
    } else if a.len() == 0 {
        -1
    } else if b.len() == 0 {
        1
    } else if a[0] == b[0] {
        str_cmp(a.drop_first(), b.drop_first())
    } else if (a[0] as u32) < (b[0] as u32) {
        -1
    } else {
        1
    }
}

pub proof fn lemma_str_cmp_zero(a: Seq<char>, b: Seq<char>)
    ensures
        (str_cmp(a, b) == 0) <==> (a == b),
    decreases a.len(),
{
    if a.len() == 0 && b.len() == 0 {
        assert(a =~= b);
    } else if a.len() == 0 || b.len() == 0 {
        if a == b {
            assert(a.len() == b.len());
        }
    } else if a[0] == b[0] {
        lemma_str_cmp_zero(a.drop_first(), b.drop_first());
        if str_cmp(a, b) == 0 {
            assert(a =~= seq![a[0]] + a.drop_first());
            assert(b =~= seq![b[0]] + b.drop_first());
        }
        if a == b {
            assert(a.drop_first() =~= b.drop_first());
        }
    } else {
        if a == b {
            assert(a[0] == b[0]);
        }
    }
}

/// Swapping the arguments negates the comparison.
pub proof fn lemma_str_cmp_flip(a: Seq<char>, b: Seq<char>)
    ensures
        str_cmp(a, b) == -str_cmp(b, a),
    decreases a.len(),
{
    if a.len() == 0 && b.len() == 0 {
    } else if a.len() == 0 {
        assert(str_cmp(a, b) == -1);
        assert(str_cmp(b, a) == 1);
    } else if b.len() == 0 {
        assert(str_cmp(a, b) == 1);
        assert(str_cmp(b, a) == -1);
    } else if a[0] == b[0] {
        lemma_str_cmp_flip(a.drop_first(), b.drop_first());
        assert(str_cmp(a, b) == str_cmp(a.drop_first(), b.drop_first()));
        assert(str_cmp(b, a) == str_cmp(b.drop_first(), a.drop_first()));
    } else if (a[0] as u32) < (b[0] as u32) {
        assert(str_cmp(a, b) == -1);
        assert(str_cmp(b, a) == 1);
    } else {
        assert((b[0] as u32) != (a[0] as u32)) by {
            if (b[0] as u32) == (a[0] as u32) {
                vstd::utf8::char_u32_cast(a[0], a[0] as u32);
                vstd::utf8::char_u32_cast(b[0], b[0] as u32);
            }
        }
        assert(str_cmp(a, b) == 1);
        assert(str_cmp(b, a) == -1);
    }
}

/// Executable three-way comparison of strings, agreeing with [`str_cmp`].
pub fn cmp_str(a: &str, b: &str) -> (r: i8)
    ensures
        r as int == str_cmp(a@, b@),
        (r == 0) <==> (a@ == b@),
{
    let la = a.unicode_len();
    let lb = b.unicode_len();
    let mut i: usize = 0;
    proof {
        assert(a@.skip(0) =~= a@);
        assert(b@.skip(0) =~= b@);
    }
    loop
        invariant
            0 <= i <= la,
            0 <= i <= lb,
            la == a@.len(),
            lb == b@.len(),
            str_cmp(a@, b@) == str_cmp(a@.skip(i as int), b@.skip(i as int)),
        decreases la - i,
    {
        if i == la && i == lb {
            proof {
                assert(a@.skip(i as int).len() == 0 && b@.skip(i as int).len() == 0);
                lemma_str_cmp_zero(a@, b@);
            }
            return 0;
        }
        if i == la {
            proof {
                assert(b@.skip(i as int).len() > 0);
                lemma_str_cmp_zero(a@, b@);
            }
            return -1;
        }
        if i == lb {
            proof {
                assert(a@.skip(i as int).len() > 0);
                lemma_str_cmp_zero(a@, b@);
            }
            return 1;
        }
        let ca = a.get_char(i);
        let cb = b.get_char(i);
        if ca == cb {
            proof {
                assert(a@.skip(i as int).drop_first() =~= a@.skip(i as int + 1));
                assert(b@.skip(i as int).drop_first() =~= b@.skip(i as int + 1));
            }
            i = i + 1;
        } else if (ca as u32) < (cb as u32) {
            proof {
                lemma_str_cmp_zero(a@, b@);
            }
            return -1;
        } else {
            proof {
                lemma_str_cmp_zero(a@, b@);
            }
            return 1;
        }
    }
}

/// Executable string equality over views.
pub fn eq_str(a: &str, b: &str) -> (r: bool)
    ensures
        r == (a@ == b@),
{
    cmp_str(a, b) == 0
}

pub fn cmp_usize(a: usize, b: usize) -> (r: i8)
    ensures
        r as int == int_cmp(a as int, b as int),
{
    if a < b {
        -1
    } else if a == b {
        0
    } else {
        1
    }
}

/// Order on optional strings: absent sorts first.
pub open spec fn opt_str_cmp(a: Option<Seq<char>>, b: Option<Seq<char>>) -> int {
    match (a, b) {
        (Option::None, Option::None) => 0,
        (Option::None, Option::Some(_)) => -1,
        (Option::Some(_), Option::None) => 1,
        (Option::Some(x), Option::Some(y)) => str_cmp(x, y),
    }
}

pub proof fn lemma_opt_str_cmp_zero(a: Option<Seq<char>>, b: Option<Seq<char>>)
    ensures
        (opt_str_cmp(a, b) == 0) <==> (a == b),
{
    if a is Some && b is Some {
        lemma_str_cmp_zero(a->0, b->0);
    }
}

pub open spec fn opt_int_cmp(a: Option<int>, b: Option<int>) -> int {
    match (a, b) {
        (Option::None, Option::None) => 0,
        (Option::None, Option::Some(_)) => -1,
        (Option::Some(_), Option::None) => 1,
        (Option::Some(x), Option::Some(y)) => int_cmp(x, y),
    }
}

/// Order on key/value pair sequences: lexicographic, keys before values.
pub open spec fn pair_cmp(a: (Seq<char>, Seq<char>), b: (Seq<char>, Seq<char>)) -> int {
    lex2(str_cmp(a.0, b.0), str_cmp(a.1, b.1))
}

pub proof fn lemma_pair_cmp_zero(a: (Seq<char>, Seq<char>), b: (Seq<char>, Seq<char>))
    ensures
        (pair_cmp(a, b) == 0) <==> (a == b),
{
    lemma_str_cmp_zero(a.0, b.0);
    lemma_str_cmp_zero(a.1, b.1);
}

pub open spec fn kv_cmp(a: Seq<(Seq<char>, Seq<char>)>, b: Seq<(Seq<char>, Seq<char>)>) -> int
    decreases a.len(),
{
    if a.len() == 0 && b.len() == 0 {
        0
    } else if a.len() == 0 {
        -1
    } else if b.len() == 0 {
        1
    } else if pair_cmp(a[0], b[0]) != 0 {
        pair_cmp(a[0], b[0])
    } else {
        kv_cmp(a.drop_first(), b.drop_first())
    }
}

pub proof fn lemma_kv_cmp_zero(a: Seq<(Seq<char>, Seq<char>)>, b: Seq<(Seq<char>, Seq<char>)>)
    ensures
        (kv_cmp(a, b) == 0) <==> (a == b),
    decreases a.len(),
{
    if a.len() == 0 && b.len() == 0 {
        assert(a =~= b);
    } else if a.len() == 0 || b.len() == 0 {
        if a == b {
            assert(a.len() == b.len());
        }
    } else {
        lemma_pair_cmp_zero(a[0], b[0]);
        if pair_cmp(a[0], b[0]) == 0 {
            lemma_kv_cmp_zero(a.drop_first(), b.drop_first());
            if kv_cmp(a, b) == 0 {
                assert(a =~= seq![a[0]] + a.drop_first());
                assert(b =~= seq![b[0]] + b.drop_first());
            }
            if a == b {
                assert(a.drop_first() =~= b.drop_first());
            }
        } else {
            if a == b {
                assert(a[0] == b[0]);
            }
        }
    }
}

/// Lexicographic order on sequences of names.
pub open spec fn names_cmp(a: Seq<Seq<char>>, b: Seq<Seq<char>>) -> int
    decreases a.len(),
{
    if a.len() == 0 && b.len() == 0 {
        0
    } else if a.len() == 0 {
        -1
    } else if b.len() == 0 {
        1
    } else if str_cmp(a[0], b[0]) != 0 {
        str_cmp(a[0], b[0])
    } else {
        names_cmp(a.drop_first(), b.drop_first())
    }
}

pub proof fn lemma_names_cmp_zero(a: Seq<Seq<char>>, b: Seq<Seq<char>>)
    ensures
        (names_cmp(a, b) == 0) <==> (a == b),
    decreases a.len(),
{
    if a.len() == 0 && b.len() == 0 {
        assert(a =~= b);
    } else if a.len() == 0 || b.len() == 0 {
        if a == b {
            assert(a.len() == b.len());
        }
    } else {
        lemma_str_cmp_zero(a[0], b[0]);
        if str_cmp(a[0], b[0]) == 0 {
            lemma_names_cmp_zero(a.drop_first(), b.drop_first());
            if names_cmp(a, b) == 0 {
                assert(a =~= seq![a[0]] + a.drop_first());
                assert(b =~= seq![b[0]] + b.drop_first());
            }
            if a == b {
                assert(a.drop_first() =~= b.drop_first());
            }
        } else {
            if a == b {
                assert(a[0] == b[0]);
            }
        }
    }
}

} // verus!
