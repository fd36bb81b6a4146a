//! Plain string building: decimal rendering of identities and joining of
//! path components with a separator.

use vstd::prelude::*;
use vstd::string::StringExecFns;

verus! {

/// The character for one decimal digit.
pub open spec fn digit_char(d: nat) -> char {
    if d == 0 {
        '0'
    } else if d == 1 {
        '1'
    } else if d == 2 {
        '2'
    } else if d == 3 {
        '3'
    } else if d == 4 {
        '4'
    } else if d == 5 {
        '5'
    } else if d == 6 {
        '6'
    } else if d == 7 {
        '7'
    } else if d == 8 {
        '8'
    } else {
        '9'
    }
}

/// The decimal representation of `n`, most significant digit first,
/// without leading zeros (except for `n == 0` itself).
pub open spec fn dec_str(n: nat) -> Seq<char>
    decreases n,
{
    if n < 10 {
        seq![digit_char(n)]
    } else {
        dec_str(n / 10).push(digit_char(n % 10))
    }
}

/// The characters of the digits `ds`, read from the last digit to the first.
pub open spec fn rev_digit_chars(ds: Seq<u64>) -> Seq<char> {
    Seq::new(ds.len(), |i: int| digit_char(ds[ds.len() - 1 - i] as nat))
}

proof fn lemma_rev_digit_chars_push(ds: Seq<u64>, d: u64)
    ensures
        rev_digit_chars(ds.push(d)) == seq![digit_char(d as nat)] + rev_digit_chars(ds),
{
    assert(rev_digit_chars(ds.push(d)) =~= seq![digit_char(d as nat)] + rev_digit_chars(ds));
}

fn digit_literal(d: u64) -> (r: &'static str)
    requires
        d < 10,
    ensures
        r@ == seq![digit_char(d as nat)],
{
    let r: &'static str = if d == 0 {
        "0"
    } else if d == 1 {
        "1"
    } else if d == 2 {
        "2"
    } else if d == 3 {
        "3"
    } else if d == 4 {
        "4"
    } else if d == 5 {
        "5"
    } else if d == 6 {
        "6"
    } else if d == 7 {
        "7"
    } else if d == 8 {
        "8"
    } else {
        "9"
    };
    proof {
        reveal_strlit("0");
        reveal_strlit("1");
        reveal_strlit("2");
        reveal_strlit("3");
        reveal_strlit("4");
        reveal_strlit("5");
        reveal_strlit("6");
        reveal_strlit("7");
        reveal_strlit("8");
        reveal_strlit("9");
        assert(r@ =~= seq![digit_char(d as nat)]);
    }
    r
}

/// Renders `n` in decimal.
pub fn u64_to_dec(n: u64) -> (s: String)
    ensures
        s@ == dec_str(n as nat),
{
    let mut digits: Vec<u64> = Vec::new();
    let mut m: u64 = n;
    digits.push(m % 10);
    proof {
        lemma_rev_digit_chars_push(Seq::<u64>::empty(), n % 10);
        assert(rev_digit_chars(Seq::<u64>::empty()) =~= Seq::<char>::empty());
        if n < 10 {
            assert(dec_str(n as nat) =~= rev_digit_chars(digits@));
        } else {
            assert(dec_str(n as nat) =~= dec_str((n / 10) as nat) + rev_digit_chars(digits@));
        }
    }
    m = m / 10;
    while m > 0
        invariant
            digits.len() >= 1,
            forall|i: int| 0 <= i < digits.len() ==> digits@[i] < 10,
            dec_str(n as nat) == if m > 0 {
                dec_str(m as nat) + rev_digit_chars(digits@)
            } else {
                rev_digit_chars(digits@)
            },
        decreases m,
    {
        let d = m % 10;
        proof {
            lemma_rev_digit_chars_push(digits@, d);
            if m < 10 {
                assert(dec_str(m as nat) + rev_digit_chars(digits@) =~= rev_digit_chars(
                    digits@.push(d),
                ));
            } else {
                assert(dec_str(m as nat) + rev_digit_chars(digits@) =~= dec_str((m / 10) as nat)
                    + rev_digit_chars(digits@.push(d)));
            }
        }
        digits.push(d);
        m = m / 10;
    }
    let mut s = String::new();
    let ghost rendered = rev_digit_chars(digits@);
    let mut i: usize = digits.len();
    while i > 0
        invariant
            i <= digits.len(),
            forall|k: int| 0 <= k < digits.len() ==> digits@[k] < 10,
            rendered == rev_digit_chars(digits@),
            s@ == rendered.take(digits.len() - i),
        decreases i,
    {
        i = i - 1;
        let piece = digit_literal(digits[i]);
        s.append(piece);
        proof {
            assert(s@ =~= rendered.take(digits.len() - i));
        }
    }
    proof {
        assert(rendered.take(digits.len() as int) =~= rendered);
    }
    s
}

/// The components of `parts` joined with the separator `sep`.
pub open spec fn join_with(parts: Seq<Seq<char>>, sep: Seq<char>) -> Seq<char>
    decreases parts.len(),
{
    if parts.len() == 0 {
        Seq::empty()
    } else if parts.len() == 1 {
        parts[0]
    } else {
        join_with(parts.drop_last(), sep) + sep + parts.last()
    }
}

/// Joins the strings of `parts` with the separator `sep`.
pub fn join_strings(parts: &Vec<String>, sep: &str) -> (r: String)
    ensures
        r@ == join_with(parts.deep_view(), sep@),
{
    let mut r = String::new();
    let ghost parts_view = parts.deep_view();
    let mut i: usize = 0;
    while i < parts.len()
        invariant
            i <= parts.len(),
            parts_view == parts.deep_view(),
            parts_view.len() == parts.len(),
            forall|k: int| 0 <= k < parts.len() ==> parts_view[k] == #[trigger] parts@[k]@,
            r@ == join_with(parts_view.take(i as int), sep@),
        decreases parts.len() - i,
    {
        if i > 0 {
            r.append(sep);
        }
        r.append(parts[i].as_str());
        proof {
            assert(parts_view.take(i + 1).drop_last() =~= parts_view.take(i as int));
            assert(r@ =~= join_with(parts_view.take(i + 1), sep@));
        }
        i = i + 1;
    }
    proof {
        assert(parts_view.take(parts.len() as int) =~= parts_view);
    }
    r
}

} // verus!

