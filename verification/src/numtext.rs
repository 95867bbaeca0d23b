//! Decimal text for unsigned integers: parsing and printing, each pinned to
//! a recursive specification of decimal notation.

use vstd::prelude::*;

verus! {

pub open spec fn is_digit(c: char) -> bool {
    '0' as u32 <= c as u32 <= '9' as u32
}

pub open spec fn digit_val(c: char) -> int {
    c as u32 - '0' as u32
}

pub open spec fn all_digits(s: Seq<char>) -> bool {
    forall|i: int| 0 <= i < s.len() ==> is_digit(#[trigger] s[i])
}

/// The value of a digit string, most significant digit first.
pub open spec fn digits_val(s: Seq<char>) -> int
    decreases s.len(),
{
    if s.len() == 0 {
        0
    } else {
        digits_val(s.drop_last()) * 10 + digit_val(s.last())
    }
}

/// What parsing a decimal `usize` yields: the value, provided the text is a
/// non-empty digit string whose value fits.
pub open spec fn spec_parse_usize(s: Seq<char>) -> Option<usize> {
    if s.len() > 0 && all_digits(s) && 0 <= digits_val(s) <= usize::MAX {
        Some(digits_val(s) as usize)
    } else {
        None
    }
}

proof fn lemma_digits_val_nonneg(s: Seq<char>)
    requires
        all_digits(s),
    ensures
        digits_val(s) >= 0,
    decreases s.len(),
{
    if s.len() > 0 {
        assert(all_digits(s.drop_last()));
        lemma_digits_val_nonneg(s.drop_last());
    }
}

proof fn lemma_digits_val_mono(s: Seq<char>, k: int)
    requires
        all_digits(s),
        0 <= k <= s.len(),
    ensures
        digits_val(s) >= digits_val(s.take(k)),
    decreases s.len(),
{
    if k == s.len() {
        assert(s.take(k) =~= s);
    } else {
        assert(all_digits(s.drop_last()));
        assert(s.drop_last().take(k) =~= s.take(k));
        lemma_digits_val_mono(s.drop_last(), k);
        lemma_digits_val_nonneg(s.drop_last());
    }
}

/// Parses a decimal `usize`; `None` on empty input, a non-digit, or overflow.
pub fn parse_usize(s: &str) -> (r: Option<usize>)
    ensures
        r == spec_parse_usize(s@),
{
    let n = s.unicode_len();
    if n == 0 {
        return None;
    }
    let mut val: usize = 0;
    let mut i: usize = 0;
    proof {
        assert(s@.take(0) =~= Seq::<char>::empty());
    }
    while i < n
        invariant
            0 <= i <= n,
            n == s@.len(),
            n > 0,
            all_digits(s@.take(i as int)),
            val == digits_val(s@.take(i as int)),
        decreases n - i,
    {
        let c = s.get_char(i);
        let cu = c as u32;
        if cu < '0' as u32 || cu > '9' as u32 {
            assert(!is_digit(s@[i as int]));
            return None;
        }
        let d = (cu - '0' as u32) as usize;
        proof {
            assert(s@.take(i as int + 1).drop_last() =~= s@.take(i as int));
            assert(s@.take(i as int + 1).last() == s@[i as int]);
        }
        if val > (usize::MAX - d) / 10 {
            proof {
                assert(digits_val(s@.take(i as int + 1)) == val * 10 + d);
                assert(val * 10 + d > usize::MAX) by (nonlinear_arith)
                    requires
                        val > (usize::MAX - d) / 10,
                        d <= 9,
                {
                }
                if all_digits(s@) {
                    lemma_digits_val_mono(s@, i as int + 1);
                }
            }
            return None;
        }
        proof {
            assert(val * 10 + d <= usize::MAX) by (nonlinear_arith)
                requires
                    val <= (usize::MAX - d) / 10,
                    d <= 9,
                    val >= 0,
            {
            }
        }
        val = val * 10 + d;
        i = i + 1;
    }
    proof {
        assert(s@.take(n as int) =~= s@);
    }
    Some(val)
}

pub open spec fn digit_char(d: int) -> char {
    if d == 0 {
        '0'
    } else if d == 1 {
        '1'
    } else if d == 2 {
        '2'
    } else if d == 3 {
        '3'
    } else if d == 4 {
        '4'
    } else if d == 5 {
        '5'
    } else if d == 6 {
        '6'
    } else if d == 7 {
        '7'
    } else if d == 8 {
        '8'
    } else {
        '9'
    }
}

/// Decimal notation of a non-negative integer, without leading zeros.
pub open spec fn spec_usize_chars(n: int) -> Seq<char>
    decreases n,
{
    if n < 10 {
        seq![digit_char(n)]
    } else {
        spec_usize_chars(n / 10).push(digit_char(n % 10))
    }
}

fn digit_str(d: usize) -> (r: &'static str)
    requires
        d < 10,
    ensures
        r@ =~= seq![digit_char(d as int)],
{
    proof {
        reveal_strlit("0");
        reveal_strlit("1");
        reveal_strlit("2");
        reveal_strlit("3");
        reveal_strlit("4");
        reveal_strlit("5");
        reveal_strlit("6");
        reveal_strlit("7");
        reveal_strlit("8");
        reveal_strlit("9");
    }
    if d == 0 {
        "0"
    } else if d == 1 {
        "1"
    } else if d == 2 {
        "2"
    } else if d == 3 {
        "3"
    } else if d == 4 {
        "4"
    } else if d == 5 {
        "5"
    } else if d == 6 {
        "6"
    } else if d == 7 {
        "7"
    } else if d == 8 {
        "8"
    } else {
        "9"
    }
}

/// The characters of a digit stack (least significant digit pushed first),
/// read back to front.
pub open spec fn digit_seq_rev(ds: Seq<usize>) -> Seq<char>
    decreases ds.len(),
{
    if ds.len() == 0 {
        Seq::empty()
    } else {
        seq![digit_char(ds.last() as int)] + digit_seq_rev(ds.drop_last())
    }
}

proof fn lemma_rev_len(ds: Seq<usize>)
    ensures
        digit_seq_rev(ds).len() == ds.len(),
    decreases ds.len(),
{
    if ds.len() > 0 {
        lemma_rev_len(ds.drop_last());
    }
}

proof fn lemma_rev_index(ds: Seq<usize>, i: int)
    requires
        0 <= i < ds.len(),
    ensures
        digit_seq_rev(ds).len() == ds.len(),
        digit_seq_rev(ds)[i] == digit_char(ds[ds.len() - 1 - i] as int),
    decreases ds.len(),
{
    lemma_rev_len(ds);
    if i == 0 {
    } else {
        lemma_rev_index(ds.drop_last(), i - 1);
    }
}

/// Appends the decimal notation of `n` to `out`.
pub fn append_usize(out: &mut String, n: usize)
    ensures
        final(out)@ == old(out)@ + spec_usize_chars(n as int),
{
    let mut digits: Vec<usize> = Vec::new();
    let mut cur = n;
    loop
        invariant_except_break
            digits@.len() == 0 ==> cur == n,
            digits@.len() > 0 ==> cur > 0,
            digits@.len() > 0 ==> spec_usize_chars(n as int) == spec_usize_chars(cur as int)
                + digit_seq_rev(digits@),
        invariant
            forall|j: int| 0 <= j < digits@.len() ==> #[trigger] digits@[j] < 10,
        ensures
            spec_usize_chars(n as int) == digit_seq_rev(digits@),
        decreases cur,
    {
        let ghost olddigits = digits@;
        let ghost oldcur = cur as int;
        let d = cur % 10;
        let next = cur / 10;
        digits.push(d);
        cur = next;
        proof {
            assert(olddigits.push(d).drop_last() =~= olddigits);
            assert(digit_seq_rev(olddigits.push(d)) == seq![digit_char(d as int)]
                + digit_seq_rev(olddigits));
            if olddigits.len() == 0 {
                if next > 0 {
                    assert(spec_usize_chars(n as int) =~= spec_usize_chars(next as int) + seq![
                        digit_char(d as int),
                    ]);
                    assert(spec_usize_chars(next as int) + seq![digit_char(d as int)]
                        =~= spec_usize_chars(next as int) + digit_seq_rev(olddigits.push(d)));
                } else {
                    assert(spec_usize_chars(n as int) =~= digit_seq_rev(olddigits.push(d)));
                }
            } else {
                if oldcur >= 10 {
                    assert(spec_usize_chars(oldcur) == spec_usize_chars(next as int).push(
                        digit_char(d as int),
                    ));
                    assert(spec_usize_chars(next as int) + digit_seq_rev(olddigits.push(d))
                        =~= spec_usize_chars(oldcur) + digit_seq_rev(olddigits));
                } else {
                    assert(spec_usize_chars(oldcur) =~= seq![digit_char(d as int)]);
                    assert(digit_seq_rev(olddigits.push(d)) =~= spec_usize_chars(oldcur)
                        + digit_seq_rev(olddigits));
                }
            }
        }
        if cur == 0 {
            break;
        }
    }
    let len = digits.len();
    let mut k = len;
    let ghost entry = out@;
    proof {
        lemma_rev_len(digits@);
        assert(digit_seq_rev(digits@).take(0) =~= Seq::<char>::empty());
        assert(entry + digit_seq_rev(digits@).take(0) =~= entry);
    }
    while k > 0
        invariant
            0 <= k <= len,
            len == digits@.len(),
            forall|j: int| 0 <= j < digits@.len() ==> #[trigger] digits@[j] < 10,
            digit_seq_rev(digits@).len() == digits@.len(),
            out@ == entry + digit_seq_rev(digits@).take(len - k as int),
        decreases k,
    {
        let d = digits[k - 1];
        out.append(digit_str(d));
        proof {
            lemma_rev_index(digits@, len - k as int);
            assert(digit_seq_rev(digits@).take(len - k as int + 1) =~= digit_seq_rev(
                digits@,
            ).take(len - k as int).push(digit_char(digits@[k as int - 1] as int)));
            assert(entry + digit_seq_rev(digits@).take(len - k as int) + seq![
                digit_char(digits@[k as int - 1] as int),
            ] =~= entry + digit_seq_rev(digits@).take(len - k as int + 1));
        }
        k = k - 1;
    }
    proof {
        assert(digit_seq_rev(digits@).take(len as int) =~= digit_seq_rev(digits@));
        if digits@.len() > 0 {
        }
    }
}

} // verus!
