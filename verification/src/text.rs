//! Verified text building for the diagnostic dumps.
//!
//! Numbers are printed in decimal; lists are joined with a separator.  Every
//! builder's result is pinned by a specification function describing the
//! exact character sequence.

use vstd::prelude::*;
use vstd::string::{StringExecFns, StrSliceExecFns};

verus! {

/// The character of a decimal digit.
pub open spec fn digit_char(d: int) -> char {
    if d == 0 {
        '0'
    } else if d == 1 {
        '1'
    } else if d == 2 {
        '2'
    } else if d == 3 {
        '3'
    } else if d == 4 {
        '4'
    } else if d == 5 {
        '5'
    } else if d == 6 {
        '6'
    } else if d == 7 {
        '7'
    } else if d == 8 {
        '8'
    } else {
        '9'
    }
}

/// The decimal representation of a non-negative number.
pub open spec fn dec_str(n: int) -> Seq<char>
    decreases n,
{
    if n < 10 {
        seq![digit_char(n)]
    } else {
        dec_str(n / 10) + seq![digit_char(n % 10)]
    }
}

/// The digit characters of a digit list, most significant last in the list.
spec fn rev_digits(ds: Seq<usize>) -> Seq<char>
    decreases ds.len(),
{
    if ds.len() == 0 {
        Seq::empty()
    } else {
        seq![digit_char(ds.last() as int)] + rev_digits(ds.drop_last())
    }
}

proof fn lemma_rev_digits_index(ds: Seq<usize>, k: int)
    requires
        0 <= k < ds.len(),
    ensures
        rev_digits(ds).len() == ds.len(),
        rev_digits(ds)[k] == digit_char(ds[ds.len() - 1 - k] as int),
    decreases ds.len(),
{
    lemma_rev_digits_len(ds);
    if k == 0 {
    } else {
        lemma_rev_digits_index(ds.drop_last(), k - 1);
        assert(rev_digits(ds)[k] == rev_digits(ds.drop_last())[k - 1]);
    }
}

proof fn lemma_rev_digits_len(ds: Seq<usize>)
    ensures
        rev_digits(ds).len() == ds.len(),
    decreases ds.len(),
{
    if ds.len() > 0 {
        lemma_rev_digits_len(ds.drop_last());
    }
}

/// One digit as a string slice.
fn digit_str(d: usize) -> (r: &'static str)
    requires
        d < 10,
    ensures
        r@ == seq![digit_char(d as int)],
{
    let r: &'static str = match d {
        0 => "0",
        1 => "1",
        2 => "2",
        3 => "3",
        4 => "4",
        5 => "5",
        6 => "6",
        7 => "7",
        8 => "8",
        _ => "9",
    };
    proof {
        reveal_strlit("0");
        reveal_strlit("1");
        reveal_strlit("2");
        reveal_strlit("3");
        reveal_strlit("4");
        reveal_strlit("5");
        reveal_strlit("6");
        reveal_strlit("7");
        reveal_strlit("8");
        reveal_strlit("9");
        assert(r@ =~= seq![digit_char(d as int)]);
    }
    r
}

/// Append the decimal form of `n`.
pub fn push_usize(s: &mut String, n: usize)
    ensures
        final(s)@ == old(s)@ + dec_str(n as int),
{
    let mut digits: Vec<usize> = Vec::new();
    let mut m = n;
    proof {
        assert(rev_digits(digits@) =~= Seq::<char>::empty());
        assert(dec_str(n as int) =~= dec_str(n as int) + rev_digits(digits@));
    }
    loop
        invariant_except_break
            m == 0 ==> n == 0 && digits@.len() == 0,
        invariant
            m >= 0,
            forall|k: int| 0 <= k < digits@.len() ==> #[trigger] digits@[k] < 10,
            m > 0 ==> dec_str(n as int) == dec_str(m as int) + rev_digits(digits@),
        ensures
            dec_str(n as int) == rev_digits(digits@),
            forall|k: int| 0 <= k < digits@.len() ==> #[trigger] digits@[k] < 10,
        decreases m,
    {
        let d = m % 10;
        let ghost olddigits = digits@;
        digits.push(d);
        proof {
            assert(digits@.drop_last() =~= olddigits);
            assert(rev_digits(digits@) == seq![digit_char(d as int)] + rev_digits(olddigits));
            if m < 10 {
                assert(dec_str(m as int) == seq![digit_char(m as int)]);
                if olddigits.len() == 0 {
                    assert(rev_digits(olddigits) =~= Seq::<char>::empty());
                    assert(rev_digits(digits@) =~= seq![digit_char(d as int)]);
                    assert(dec_str(n as int) =~= rev_digits(digits@));
                } else {
                    assert(dec_str(n as int) =~= rev_digits(digits@));
                }
            } else {
                assert(dec_str(m as int) == dec_str(m as int / 10) + seq![
                    digit_char(m as int % 10),
                ]);
                if olddigits.len() == 0 {
                    assert(rev_digits(digits@) =~= seq![digit_char(d as int)]);
                    assert(dec_str(n as int) =~= dec_str((m / 10) as int) + rev_digits(digits@));
                } else {
                    assert(dec_str(n as int) =~= dec_str((m / 10) as int) + rev_digits(digits@));
                }
            }
        }
        m = m / 10;
        if m == 0 {
            break ;
        }
    }
    // Emit most significant first: walk the digit list from its end.
    let mut i: usize = digits.len();
    proof {
        lemma_rev_digits_len(digits@);
        assert(s@ =~= old(s)@ + rev_digits(digits@).take(0));
    }
    while i > 0
        invariant
            0 <= i <= digits@.len(),
            dec_str(n as int) == rev_digits(digits@),
            rev_digits(digits@).len() == digits@.len(),
            forall|k: int| 0 <= k < digits@.len() ==> #[trigger] digits@[k] < 10,
            s@ == old(s)@ + rev_digits(digits@).take(digits@.len() - i),
        decreases i,
    {
        i = i - 1;
        let ghost done = digits@.len() - (i + 1);
        s.append(digit_str(digits[i]));
        proof {
            lemma_rev_digits_index(digits@, done);
            assert(rev_digits(digits@).take(digits@.len() - i) =~= rev_digits(digits@).take(
                done,
            ).push(rev_digits(digits@)[done]));
            assert(rev_digits(digits@)[done] == digit_char(digits@[i as int] as int));
            assert(s@ =~= old(s)@ + rev_digits(digits@).take(digits@.len() - i));
        }
    }
    proof {
        assert(rev_digits(digits@).take(digits@.len() as int) =~= rev_digits(digits@));
    }
}

/// Append a string slice.
pub fn push_str(s: &mut String, t: &str)
    ensures
        final(s)@ == old(s)@ + t@,
{
    s.append(t);
}


/// The views of a list of strings.
pub open spec fn strs_views(v: Seq<String>) -> Seq<Seq<char>> {
    v.map_values(|x: String| x@)
}

/// Parts joined by a separator.
pub open spec fn join_strs(parts: Seq<Seq<char>>, sep: Seq<char>) -> Seq<char>
    decreases parts.len(),
{
    if parts.len() == 0 {
        Seq::empty()
    } else if parts.len() == 1 {
        parts[0]
    } else {
        join_strs(parts.drop_last(), sep) + sep + parts.last()
    }
}

/// Append the parts joined by `sep`.
pub fn join_into(out: &mut String, parts: &Vec<String>, sep: &str)
    ensures
        final(out)@ == old(out)@ + join_strs(strs_views(parts@), sep@),
{
    let ghost pv = strs_views(parts@);
    let mut i: usize = 0;
    proof {
        assert(pv.take(0) =~= Seq::<Seq<char>>::empty());
        assert(out@ =~= old(out)@ + join_strs(pv.take(0), sep@));
    }
    while i < parts.len()
        invariant
            0 <= i <= parts@.len(),
            pv == strs_views(parts@),
            out@ == old(out)@ + join_strs(pv.take(i as int), sep@),
        decreases parts@.len() - i,
    {
        if i > 0 {
            out.append(sep);
        }
        out.append(parts[i].as_str());
        proof {
            assert(pv.take(i + 1).drop_last() =~= pv.take(i as int));
            assert(pv.take(i + 1).last() == pv[i as int]);
            if i == 0 {
                assert(join_strs(pv.take(1), sep@) == pv[0]);
                assert(out@ =~= old(out)@ + join_strs(pv.take(i + 1), sep@));
            } else {
                assert(out@ =~= old(out)@ + join_strs(pv.take(i + 1), sep@));
            }
        }
        i += 1;
    }
    proof {
        assert(pv.take(pv.len() as int) =~= pv);
    }
}

/// `n` copies of a unit string.
pub open spec fn rep_str(n: int, u: Seq<char>) -> Seq<char>
    decreases n,
{
    if n <= 0 {
        Seq::empty()
    } else {
        rep_str(n - 1, u) + u
    }
}

/// A string padded on the right with spaces to width `w` (unchanged when
/// already that wide).
pub open spec fn pad_str(t: Seq<char>, w: int) -> Seq<char> {
    if t.len() >= w {
        t
    } else {
        t + rep_str(w - t.len(), " "@)
    }
}

/// Append `t` padded on the right to width `w`.
pub fn push_padded(out: &mut String, t: &String, w: usize)
    ensures
        final(out)@ == old(out)@ + pad_str(t@, w as int),
{
    out.append(t.as_str());
    let have = t.as_str().unicode_len();
    proof {
        assert(out@ =~= old(out)@ + t@ + rep_str(0, " "@));
    }
    if have >= w {
        proof {
            assert(pad_str(t@, w as int) =~= t@);
        }
        return ;
    }
    let fill = w - have;
    let mut n: usize = 0;
    while n < fill
        invariant
            0 <= n <= fill,
            fill == w - t@.len(),
            out@ == old(out)@ + t@ + rep_str(n as int, " "@),
        decreases fill - n,
    {
        out.append(" ");
        proof {
            assert(out@ =~= old(out)@ + t@ + rep_str(n + 1, " "@));
        }
        n += 1;
    }
    proof {
        assert(out@ =~= old(out)@ + pad_str(t@, w as int));
    }
}


/// Viewing commutes with appending one string.
pub proof fn lemma_strs_views_push(s: Seq<String>, x: String)
    ensures
        strs_views(s.push(x)) =~= strs_views(s).push(x@),
{
}

} // verus!
